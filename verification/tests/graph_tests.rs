use minimake::error::MakeError;
use minimake::node::NodeType;
use minimake::parser::{walk_stmt, Parser, Visitor};
use minimake::visitor::PrintVisitor;
use minimake::visitor::NodeVisitor;

fn build_graph(text: &str, files: Vec<String>) -> Result<NodeVisitor, MakeError> {
    let mut parser = Parser::new(String::from(text));
    let program = parser.parse().expect("the makefile parses");
    let mut visitor = NodeVisitor::new();
    visitor.seed_files(files);
    visitor.build(program)?;
    Ok(visitor)
}

#[test]
fn duplicate_target_is_an_error() {
    let r = build_graph("a: b\n\tcmd\n\na: c\n", Vec::new());
    match r {
        Err(MakeError::DuplicateTarget { name }) => assert_eq!(name, "a"),
        other => panic!("expected a duplicate-target error, got {:?}", other),
    }
}

#[test]
fn file_entry_resolves_prerequisite_to_a_file_node() {
    let v = build_graph("app: lib.a\n\tld -o app\n", vec![String::from("lib.a")]).unwrap();
    let i = v.find_node(&String::from("lib.a")).expect("lib.a has a node");
    assert!(matches!(v.nodes[i].node_type, NodeType::File { .. }));
    assert!(v.nodes[i].dependencies.is_empty());
}

#[test]
fn forward_reference_is_upgraded_in_place() {
    let v = build_graph("a: b\nb:\n\ttouch b\n", Vec::new()).unwrap();
    let ia = v.find_node(&String::from("a")).unwrap();
    let ib = v.find_node(&String::from("b")).unwrap();
    // the rule for `b` upgraded the placeholder that `a` already points at
    assert!(matches!(v.nodes[ib].node_type, NodeType::Target { .. }));
    assert_eq!(v.nodes[ia].dependencies, vec![ib]);
}

#[test]
fn undefined_prerequisite_stays_unknown() {
    let v = build_graph("a: ghost\n", Vec::new()).unwrap();
    let ig = v.find_node(&String::from("ghost")).unwrap();
    assert!(matches!(v.nodes[ig].node_type, NodeType::Unknown));
}

#[test]
fn rule_takes_precedence_over_file_entry() {
    // a rule whose target names an existing filesystem entry upgrades the
    // File node into a Target
    let v = build_graph("lib.a:\n\tar rc lib.a\n", vec![String::from("lib.a")]).unwrap();
    let i = v.find_node(&String::from("lib.a")).unwrap();
    assert!(matches!(v.nodes[i].node_type, NodeType::Target { .. }));
}

#[test]
fn first_rule_records_the_default_target() {
    let v = build_graph("one:\n\ntwo:\n", Vec::new()).unwrap();
    let d = v.default_target.expect("a default target is recorded");
    assert_eq!(v.nodes[d].name, "one");
}

#[test]
fn shared_prerequisite_has_one_node() {
    let v = build_graph("a: common\nb: common\ncommon:\n", Vec::new()).unwrap();
    let ia = v.find_node(&String::from("a")).unwrap();
    let ib = v.find_node(&String::from("b")).unwrap();
    let ic = v.find_node(&String::from("common")).unwrap();
    // both rules reference the same node by identity (the same index)
    assert_eq!(v.nodes[ia].dependencies, vec![ic]);
    assert_eq!(v.nodes[ib].dependencies, vec![ic]);
    assert_eq!(v.nodes.len(), 3);
}

#[test]
fn seeding_skips_names_that_already_have_a_node() {
    let mut visitor = NodeVisitor::new();
    visitor.seed_files(vec![String::from("x"), String::from("x")]);
    assert_eq!(visitor.nodes.len(), 1);
}

#[test]
fn assignments_and_directives_define_no_nodes() {
    let v = build_graph(".PHONY: all\n$(CC) = gcc\nall:\n", Vec::new()).unwrap();
    assert_eq!(v.nodes.len(), 1);
}

#[test]
fn print_visitor_renders_one_line_per_statement() {
    let mut parser = Parser::new(String::from("all: foo.o\n\tgcc -c foo.o\n"));
    let program = parser.parse().expect("parses");
    let mut printer = PrintVisitor::new();
    printer.visit_program(&program);
    assert_eq!(
        printer.lines,
        vec![String::from("RuleStmt{target: all, prerequisite: foo.o, commands: gcc}")]
    );
}

#[test]
fn walk_stmt_dispatches_by_statement_kind() {
    let mut parser = Parser::new(String::from(".PHONY: all\n$(CC) = gcc\n"));
    let program = parser.parse().expect("parses");
    let mut printer = PrintVisitor::new();
    for stmt in &program.statements {
        walk_stmt(&mut printer, stmt);
    }
    assert_eq!(
        printer.lines,
        vec![String::from("DirectiveStmt{}"), String::from("AssignStmt{}")]
    );
}
