use minimake::error::MakeError;
use minimake::lexer::Command;
use minimake::parser::Parser;
use minimake::sched::{Execution, Task};
use minimake::visitor::NodeVisitor;

fn graph_of(text: &str, files: Vec<String>) -> NodeVisitor {
    let mut parser = Parser::new(String::from(text));
    let program = parser.parse().expect("the makefile parses");
    let mut visitor = NodeVisitor::new();
    visitor.seed_files(files);
    visitor.build(program).expect("the graph builds");
    visitor
}

fn plan_names(ex: &Execution) -> Vec<String> {
    ex.tasks.iter().map(|t| t.name.clone()).collect()
}

#[test]
fn two_rule_makefile_schedules_dependency_first() {
    let v = graph_of("all: foo.o\n\tgcc -c foo.o\n\nfoo.o:\n\ttouch foo.o\n", Vec::new());
    let ex = v.run(Some(String::from("all"))).expect("the plan exists");
    assert_eq!(plan_names(&ex), vec![String::from("foo.o"), String::from("all")]);
}

#[test]
fn topological_order_respects_every_dependency() {
    let v = graph_of("top: left right\nleft: base\nright: base\nbase:\n\ttouch base\n", Vec::new());
    let root = v.find_node(&String::from("top")).unwrap();
    let order = v.topo_sort(root).expect("the graph is acyclic");
    assert_eq!(order.len(), 4);
    let pos = |name: &str| {
        let i = v.find_node(&String::from(name)).unwrap();
        order.iter().position(|&x| x == i).expect("every reachable node is scheduled")
    };
    assert!(pos("base") < pos("left"));
    assert!(pos("base") < pos("right"));
    assert!(pos("left") < pos("top"));
    assert!(pos("right") < pos("top"));
    // each node exactly once
    let mut seen = order.clone();
    seen.sort();
    seen.dedup();
    assert_eq!(seen.len(), 4);
}

#[test]
fn mutual_reference_is_a_cycle_error() {
    let v = graph_of("a: b\nb: a\n", Vec::new());
    match v.run(Some(String::from("a"))) {
        Err(MakeError::CycleDetected { from, to }) => {
            assert!(from == "a" || from == "b");
            assert!(to == "a" || to == "b");
        },
        Err(other) => panic!("expected a cycle error, got {:?}", other),
        Ok(_) => panic!("expected a cycle error, got a plan"),
    }
}

#[test]
fn self_reference_is_a_cycle_error() {
    let v = graph_of("a: a\n", Vec::new());
    match v.run(None) {
        Err(MakeError::CycleDetected { from, to }) => {
            assert_eq!(from, "a");
            assert_eq!(to, "a");
        },
        Err(other) => panic!("expected a cycle error, got {:?}", other),
        Ok(_) => panic!("expected a cycle error, got a plan"),
    }
}

#[test]
fn cycle_reachable_only_from_unrequested_target_is_tolerated() {
    let v = graph_of("good:\n\ttouch good\nbad: worse\nworse: bad\n", Vec::new());
    assert!(v.run(Some(String::from("good"))).is_ok());
    assert!(matches!(
        v.run(Some(String::from("bad"))),
        Err(MakeError::CycleDetected { .. })
    ));
}

#[test]
fn unresolved_prerequisite_aborts_scheduling() {
    let v = graph_of("a: missing\n", Vec::new());
    match v.run(Some(String::from("a"))) {
        Err(MakeError::UnresolvedPrerequisite { name }) => assert_eq!(name, "missing"),
        Err(other) => panic!("expected an unresolved-prerequisite error, got {:?}", other),
        Ok(_) => panic!("expected an unresolved-prerequisite error, got a plan"),
    }
}

#[test]
fn unknown_requested_target_is_reported() {
    let v = graph_of("a:\n", Vec::new());
    match v.run(Some(String::from("zzz"))) {
        Err(MakeError::TargetNotFound { name }) => assert_eq!(name, "zzz"),
        Err(other) => panic!("expected a target-not-found error, got {:?}", other),
        Ok(_) => panic!("expected a target-not-found error, got a plan"),
    }
}

#[test]
fn absent_target_falls_back_to_the_default() {
    let v = graph_of("first:\n\ttouch first\nsecond:\n", Vec::new());
    let ex = v.run(None).expect("the default target schedules");
    assert_eq!(plan_names(&ex), vec![String::from("first")]);
}

#[test]
fn no_rules_means_no_default_target() {
    let v = graph_of("", Vec::new());
    assert!(matches!(v.run(None), Err(MakeError::NoDefaultTarget)));
}

#[test]
fn file_prerequisite_contributes_no_commands() {
    let v = graph_of("app: lib.a\n\tld -o app\n", vec![String::from("lib.a")]);
    let ex = v.run(None).expect("the plan exists");
    assert_eq!(plan_names(&ex), vec![String::from("lib.a"), String::from("app")]);
    assert!(ex.tasks[0].commands.is_empty());
    assert_eq!(ex.tasks[1].commands.len(), 1);
}

fn cmd(program: &str, args: &[&str]) -> Command {
    Command {
        command: String::from(program),
        args: args.iter().map(|a| String::from(*a)).collect(),
    }
}

#[test]
fn commands_run_in_declared_order() {
    let ex = Execution::new(vec![Task {
        name: String::from("a"),
        commands: vec![cmd("first", &[]), cmd("second", &[])],
    }]);
    let mut run = ex;
    assert_eq!(run.next_command().unwrap().command, "first");
    run.report_status(true);
    assert_eq!(run.next_command().unwrap().command, "second");
    run.report_status(true);
    assert!(run.next_command().is_none());
    assert!(run.outcome().is_ok());
}

#[test]
fn failing_command_stops_the_run() {
    let mut run = Execution::new(vec![
        Task { name: String::from("a"), commands: vec![cmd("boom", &[]), cmd("never", &[])] },
        Task { name: String::from("b"), commands: vec![cmd("later", &[])] },
    ]);
    assert_eq!(run.next_command().unwrap().command, "boom");
    run.report_status(false);
    // the second command of the target, and the rest of the plan, never run
    assert!(run.next_command().is_none());
    match run.outcome() {
        Err(MakeError::CommandFailed { program }) => assert_eq!(program, "boom"),
        other => panic!("expected a command-failure, got {:?}", other),
    }
}

#[test]
fn tasks_without_commands_are_skipped() {
    let mut run = Execution::new(vec![
        Task { name: String::from("lib.a"), commands: Vec::new() },
        Task { name: String::from("app"), commands: vec![cmd("ld", &["-o", "app"])] },
    ]);
    let c = run.next_command().unwrap().clone();
    assert_eq!(c.command, "ld");
    assert_eq!(c.args, vec![String::from("-o"), String::from("app")]);
    run.report_status(true);
    assert!(run.next_command().is_none());
    assert!(run.outcome().is_ok());
}

#[test]
fn empty_plan_succeeds_immediately() {
    let run = Execution::new(Vec::new());
    assert!(run.next_command().is_none());
    assert!(run.outcome().is_ok());
}
