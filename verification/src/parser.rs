//! The parser: consumes the token stream and produces an ordered sequence of
//! statements (the [`Program`]).
//!
//! Top level: a bare newline is skipped; an identifier followed by a colon
//! starts a rule; a directive or variable line is recorded as an identified
//! placeholder whose body is not interpreted; any other leading token is a
//! parse error.  Rule parsing reads identifiers as prerequisites up to the
//! end of the dependency line, then captures one command per tab-introduced
//! recipe line, stopping the moment a non-tab token (or the end of the
//! input) is seen, so a rule terminates correctly both at a following
//! blank or rule line and at the end of the file.

use vstd::prelude::*;

use crate::error::{MakeError, MakeErrorView};
use crate::lexer::{
    find_char, spec_next, split_fields, str_views, Command, CommandView, LexStep, Lexer, Token,
    TokenView,
};

verus! {

use crate::lexer::lemma_find_char;
use crate::lexer::lemma_next_advances;

/// A rule block: a target, its prerequisites in declaration order, and its
/// recipe commands in declaration order.
#[derive(Debug, PartialEq, Eq)]
pub struct RuleStmt {
    pub target: String,
    pub prerequisite: Vec<String>,
    pub commands: Vec<Command>,
}

/// A variable assignment line, recognized but not interpreted: a grammar
/// slot reserved for future variable support.
#[derive(Debug, PartialEq, Eq)]
pub struct AssignStmt {}

/// A directive line (such as `.PHONY`), recognized but not interpreted: a
/// grammar slot reserved for future directive support.
#[derive(Debug, PartialEq, Eq)]
pub struct DirectiveStmt {}

/// One statement of the program.
#[derive(Debug, PartialEq, Eq)]
pub enum Statement {
    RuleStmt(RuleStmt),
    AssignStmt(AssignStmt),
    DirectiveStmt(DirectiveStmt),
}

/// The mathematical shadow of [`RuleStmt`].
pub struct RuleStmtView {
    pub target: Seq<char>,
    pub prerequisite: Seq<Seq<char>>,
    pub commands: Seq<CommandView>,
}

/// The mathematical shadow of [`Statement`].
pub enum StatementView {
    Rule(RuleStmtView),
    Assign,
    Directive,
}

/// The views of a sequence of commands.
pub open spec fn cmd_views(v: Seq<Command>) -> Seq<CommandView> {
    v.map_values(|c: Command| c@)
}

/// The views of a sequence of statements.
pub open spec fn stmt_views(v: Seq<Statement>) -> Seq<StatementView> {
    v.map_values(|st: Statement| st@)
}

impl View for RuleStmt {
    type V = RuleStmtView;

    open spec fn view(&self) -> RuleStmtView {
        RuleStmtView {
            target: self.target@,
            prerequisite: str_views(self.prerequisite@),
            commands: cmd_views(self.commands@),
        }
    }
}

impl View for Statement {
    type V = StatementView;

    open spec fn view(&self) -> StatementView {
        match self {
            Statement::RuleStmt(r) => StatementView::Rule(r@),
            Statement::AssignStmt(_) => StatementView::Assign,
            Statement::DirectiveStmt(_) => StatementView::Directive,
        }
    }
}

/// An ordered sequence of statements, in source order: later graph building
/// relies on "first rule wins as default target" and "first occurrence
/// defines, later occurrence of the same name conflicts".
#[derive(Debug, PartialEq, Eq)]
pub struct Program {
    pub statements: Vec<Statement>,
}

impl View for Program {
    type V = Seq<StatementView>;

    open spec fn view(&self) -> Seq<StatementView> {
        stmt_views(self.statements@)
    }
}

/// Dispatch one statement to the matching visitor method.
pub fn walk_stmt<V: Visitor>(visitor: &mut V, stmt: &Statement) {
    match stmt {
        Statement::RuleStmt(s) => visitor.visit_rule(s),
        Statement::AssignStmt(s) => visitor.visit_assign(s),
        Statement::DirectiveStmt(s) => visitor.visit_directive(s),
    }
}

/// A read-only walk over a program, one callback per statement kind.
pub trait Visitor: Sized {
    fn visit_rule(&mut self, t: &RuleStmt);

    fn visit_assign(&mut self, t: &AssignStmt);

    fn visit_directive(&mut self, t: &DirectiveStmt);

    fn visit_program(&mut self, t: &Program) {
        let mut k: usize = 0;
        while k < t.statements.len()
            invariant
                k <= t.statements@.len(),
            decreases t.statements@.len() - k,
        {
            match &t.statements[k] {
                Statement::RuleStmt(s) => self.visit_rule(s),
                Statement::AssignStmt(s) => self.visit_assign(s),
                Statement::DirectiveStmt(s) => self.visit_directive(s),
            }
            k = k + 1;
        }
    }
}

/// The command on the recipe line that starts at `i`: the line up to the
/// next newline, split on single spaces into a program and its arguments.
pub open spec fn command_at(s: Seq<char>, i: int) -> CommandView {
    let e = find_char(s, i, '\n');
    let fields = split_fields(s, i, e);
    CommandView { program: fields[0], args: fields.subrange(1, fields.len() as int) }
}

/// Reading the dependency line: the prerequisite names up to (and
/// including) the terminating newline, together with the position after it.
pub enum DepsStep {
    Read(Seq<Seq<char>>, int),
    Fail(MakeErrorView),
}

/// Reading a recipe block: the commands of the tab-introduced lines,
/// together with the position after them (a non-tab token is not consumed).
pub enum CmdsStep {
    Read(Seq<CommandView>, int),
    Fail(MakeErrorView),
}

/// Reading one whole rule after `target :`.
pub enum RuleStep {
    Read(RuleStmtView, int),
    Fail(MakeErrorView),
}

/// Reading statements to the end of the input.
pub enum ParseStep {
    Parsed(Seq<StatementView>),
    Fail(MakeErrorView),
}

/// The prerequisites read from position `i` on: identifiers up to the first
/// newline (or the end of the input); any other token is a parse error.
pub open spec fn spec_deps(s: Seq<char>, i: int) -> DepsStep
    decreases s.len() - i,
    via spec_deps_dec
{
    match spec_next(s, i) {
        LexStep::End => DepsStep::Read(seq![], s.len() as int),
        LexStep::Fail(p) => DepsStep::Fail(MakeErrorView::Lex { pos: p }),
        LexStep::Tok(t, j) => match t {
            TokenView::NewLine => DepsStep::Read(seq![], j),
            TokenView::Identifier(w) => match spec_deps(s, j) {
                DepsStep::Read(rest, k) => DepsStep::Read(seq![w] + rest, k),
                DepsStep::Fail(e) => DepsStep::Fail(e),
            },
            _ => DepsStep::Fail(MakeErrorView::Parse { pos: i }),
        },
    }
}

#[via_fn]
proof fn spec_deps_dec(s: Seq<char>, i: int) {
    lemma_next_advances(s, i);
}

proof fn lemma_spec_deps_pos(s: Seq<char>, i: int)
    requires
        i <= s.len(),
    ensures
        spec_deps(s, i) matches DepsStep::Read(d, k) ==> i <= k <= s.len(),
    decreases s.len() - i,
{
    lemma_next_advances(s, i);
    match spec_next(s, i) {
        LexStep::Tok(t, j) => match t {
            TokenView::Identifier(w) => {
                lemma_spec_deps_pos(s, j);
            },
            _ => {},
        },
        _ => {},
    }
}

/// The commands read from position `i` on: one command per tab-introduced
/// line, each line ending at a newline (or the end of the input); the first
/// non-tab token ends the block without being consumed.
pub open spec fn spec_cmds(s: Seq<char>, i: int) -> CmdsStep
    decreases s.len() - i,
    via spec_cmds_dec
{
    match spec_next(s, i) {
        LexStep::Fail(p) => CmdsStep::Fail(MakeErrorView::Lex { pos: p }),
        LexStep::Tok(TokenView::Tab, j) => {
            let e = find_char(s, j, '\n');
            let cmd = command_at(s, j);
            if e >= s.len() {
                CmdsStep::Read(seq![cmd], s.len() as int)
            } else {
                match spec_cmds(s, e + 1) {
                    CmdsStep::Read(rest, k) => CmdsStep::Read(seq![cmd] + rest, k),
                    CmdsStep::Fail(er) => CmdsStep::Fail(er),
                }
            }
        },
        _ => CmdsStep::Read(seq![], i),
    }
}

#[via_fn]
proof fn spec_cmds_dec(s: Seq<char>, i: int) {
    lemma_next_advances(s, i);
    match spec_next(s, i) {
        LexStep::Tok(t, j) => match t {
            TokenView::Tab => {
                lemma_find_char(s, j, '\n');
            },
            _ => {},
        },
        _ => {},
    }
}

proof fn lemma_spec_cmds_pos(s: Seq<char>, i: int)
    requires
        i <= s.len(),
    ensures
        spec_cmds(s, i) matches CmdsStep::Read(c, k) ==> i <= k <= s.len(),
    decreases s.len() - i,
{
    lemma_next_advances(s, i);
    match spec_next(s, i) {
        LexStep::Tok(t, j) => match t {
            TokenView::Tab => {
                lemma_find_char(s, j, '\n');
                let e = find_char(s, j, '\n');
                if e < s.len() {
                    lemma_spec_cmds_pos(s, e + 1);
                }
            },
            _ => {},
        },
        _ => {},
    }
}

/// One whole rule read after `target :` at position `i`: the dependency
/// line, then the recipe block.
pub open spec fn spec_rule(s: Seq<char>, i: int, target: Seq<char>) -> RuleStep {
    match spec_deps(s, i) {
        DepsStep::Fail(e) => RuleStep::Fail(e),
        DepsStep::Read(deps, j) => match spec_cmds(s, j) {
            CmdsStep::Fail(e) => RuleStep::Fail(e),
            CmdsStep::Read(cmds, k) => RuleStep::Read(
                RuleStmtView { target, prerequisite: deps, commands: cmds },
                k,
            ),
        },
    }
}

proof fn lemma_spec_rule_pos(s: Seq<char>, i: int, target: Seq<char>)
    requires
        i <= s.len(),
    ensures
        spec_rule(s, i, target) matches RuleStep::Read(r, k) ==> i <= k <= s.len(),
{
    lemma_spec_deps_pos(s, i);
    match spec_deps(s, i) {
        DepsStep::Read(deps, j) => {
            lemma_spec_cmds_pos(s, j);
        },
        _ => {},
    }
}

/// The whole program read from position `i` on: blank lines are skipped, an
/// identifier followed by a colon starts a rule, directive and variable
/// lines become placeholders with the rest of their line ignored, and any
/// other leading token is a parse error.
pub open spec fn spec_stmts(s: Seq<char>, i: int) -> ParseStep
    decreases s.len() - i,
    via spec_stmts_dec
{
    match spec_next(s, i) {
        LexStep::End => ParseStep::Parsed(seq![]),
        LexStep::Fail(p) => ParseStep::Fail(MakeErrorView::Lex { pos: p }),
        LexStep::Tok(t, j) => match t {
            TokenView::NewLine => spec_stmts(s, j),
            TokenView::Identifier(w) => match spec_next(s, j) {
                LexStep::Tok(TokenView::Colon, j2) => match spec_rule(s, j2, w) {
                    RuleStep::Read(r, k) => match spec_stmts(s, k) {
                        ParseStep::Parsed(rest) => ParseStep::Parsed(seq![StatementView::Rule(r)] + rest),
                        ParseStep::Fail(e) => ParseStep::Fail(e),
                    },
                    RuleStep::Fail(e) => ParseStep::Fail(e),
                },
                LexStep::Fail(p) => ParseStep::Fail(MakeErrorView::Lex { pos: p }),
                _ => ParseStep::Fail(MakeErrorView::Parse { pos: j }),
            },
            TokenView::ConfigVariable(_) => {
                let e = find_char(s, j, '\n');
                let nxt = if e < s.len() {
                    e + 1
                } else {
                    e
                };
                match spec_stmts(s, nxt) {
                    ParseStep::Parsed(rest) => ParseStep::Parsed(seq![StatementView::Directive] + rest),
                    ParseStep::Fail(er) => ParseStep::Fail(er),
                }
            },
            TokenView::UserVariable(_) => {
                let e = find_char(s, j, '\n');
                let nxt = if e < s.len() {
                    e + 1
                } else {
                    e
                };
                match spec_stmts(s, nxt) {
                    ParseStep::Parsed(rest) => ParseStep::Parsed(seq![StatementView::Assign] + rest),
                    ParseStep::Fail(er) => ParseStep::Fail(er),
                }
            },
            _ => ParseStep::Fail(MakeErrorView::Parse { pos: i }),
        },
    }
}

#[via_fn]
proof fn spec_stmts_dec(s: Seq<char>, i: int) {
    lemma_next_advances(s, i);
    match spec_next(s, i) {
        LexStep::Tok(t, j) => match t {
            TokenView::Identifier(w) => {
                lemma_next_advances(s, j);
                match spec_next(s, j) {
                    LexStep::Tok(TokenView::Colon, j2) => {
                        lemma_spec_rule_pos(s, j2, w);
                    },
                    _ => {},
                }
            },
            TokenView::ConfigVariable(_) => {
                lemma_find_char(s, j, '\n');
            },
            TokenView::UserVariable(_) => {
                lemma_find_char(s, j, '\n');
            },
            _ => {},
        },
        _ => {},
    }
}

/// Prepend already-parsed statements to the outcome of the rest.
pub open spec fn stmts_prepend(prefix: Seq<StatementView>, rest: ParseStep) -> ParseStep {
    match rest {
        ParseStep::Parsed(sts) => ParseStep::Parsed(prefix + sts),
        ParseStep::Fail(e) => ParseStep::Fail(e),
    }
}

/// Prepend already-read prerequisites to the outcome of the rest.
pub open spec fn deps_prepend(prefix: Seq<Seq<char>>, rest: DepsStep) -> DepsStep {
    match rest {
        DepsStep::Read(d, k) => DepsStep::Read(prefix + d, k),
        DepsStep::Fail(e) => DepsStep::Fail(e),
    }
}

/// Prepend already-read commands to the outcome of the rest.
pub open spec fn cmds_prepend(prefix: Seq<CommandView>, rest: CmdsStep) -> CmdsStep {
    match rest {
        CmdsStep::Read(c, k) => CmdsStep::Read(prefix + c, k),
        CmdsStep::Fail(e) => CmdsStep::Fail(e),
    }
}

/// The parser: a token cursor plus the rule grammar.
pub struct Parser {
    pub lexer: Lexer,
}

impl Parser {
    pub open spec fn wf(&self) -> bool {
        self.lexer.wf()
    }

    /// The input the parser was made for.
    pub open spec fn input(&self) -> Seq<char> {
        self.lexer.input()
    }

    pub fn new(contents: String) -> (r: Parser)
        ensures
            r.wf(),
            r.input() == contents@,
            r.lexer.pos == 0,
    {
        Parser { lexer: Lexer::new(contents) }
    }

    /// The next token without consuming it: the cursor is restored after
    /// classification.
    fn peek(&mut self) -> (r: Result<Option<Token>, MakeError>)
        requires
            old(self).wf(),
        ensures
            final(self).wf(),
            final(self).input() == old(self).input(),
            final(self).lexer.chars@ == old(self).lexer.chars@,
            final(self).lexer.pos == old(self).lexer.pos,
            match spec_next(old(self).input(), old(self).lexer.pos as int) {
                LexStep::End => r matches Ok(o) && o is None,
                LexStep::Tok(tv, j) => r matches Ok(o) && o matches Some(t) && t@ == tv,
                LexStep::Fail(p) => r matches Err(e) && e@ == (MakeErrorView::Lex { pos: p }),
            },
    {
        let saved = self.lexer.pos;
        let r = self.lexer.next();
        self.lexer.pos = saved;
        r
    }

    /// Parse the whole input into a program: the behaviour is exactly
    /// [`spec_stmts`] at the current position.
    pub fn parse(&mut self) -> (r: Result<Program, MakeError>)
        requires
            old(self).wf(),
        ensures
            final(self).wf(),
            match spec_stmts(old(self).input(), old(self).lexer.pos as int) {
                ParseStep::Parsed(stmts) => r matches Ok(p) && p@ == stmts,
                ParseStep::Fail(e) => r matches Err(er) && er@ == e,
            },
    {
        let ghost s = self.input();
        let ghost p0 = self.lexer.pos as int;
        let mut statements: Vec<Statement> = Vec::new();
        let mut done = false;
        while !done
            invariant
                self.wf(),
                old(self).wf(),
                s == self.input(),
                s == old(self).input(),
                p0 == old(self).lexer.pos as int,
                self.lexer.pos <= s.len(),
                stmts_prepend(stmt_views(statements@), spec_stmts(s, self.lexer.pos as int))
                    == spec_stmts(s, p0),
                done ==> spec_stmts(s, self.lexer.pos as int) == ParseStep::Parsed(
                    Seq::<StatementView>::empty(),
                ),
            decreases s.len() - self.lexer.pos + (if done {
                0int
            } else {
                1int
            }),
        {
            let ghost ip = self.lexer.pos as int;
            let ghost pre = stmt_views(statements@);
            proof {
                lemma_next_advances(s, ip);
            }
            let ip_exec = self.lexer.pos;
            match self.lexer.next() {
                Err(e) => {
                    return Err(e);
                },
                Ok(None) => {
                    done = true;
                },
                Ok(Some(Token::NewLine)) => {
                },
                Ok(Some(Token::Identifier(name))) => {
                    let ghost j = self.lexer.pos as int;
                    proof {
                        lemma_next_advances(s, j);
                    }
                    let j_exec = self.lexer.pos;
                    match self.lexer.next() {
                        Err(e) => {
                            return Err(e);
                        },
                        Ok(Some(Token::Colon)) => {
                            proof {
                                lemma_spec_rule_pos(s, self.lexer.pos as int, name@);
                            }
                            match self.parse_rule(name) {
                                Err(e) => {
                                    return Err(e);
                                },
                                Ok(st) => {
                                    let ghost rv = st@;
                                    statements.push(st);
                                    proof {
                                        assert(stmt_views(statements@) =~= pre.push(rv));
                                        match spec_stmts(s, self.lexer.pos as int) {
                                            ParseStep::Parsed(rest) => {
                                                assert(pre.push(rv) + rest =~= pre + (seq![rv]
                                                    + rest));
                                            },
                                            ParseStep::Fail(_) => {},
                                        }
                                    }
                                },
                            }
                        },
                        Ok(_) => {
                            return Err(MakeError::Parse { pos: j_exec });
                        },
                    }
                },
                Ok(Some(Token::ConfigVariable(_))) => {
                    proof {
                        lemma_find_char(s, self.lexer.pos as int, '\n');
                    }
                    self.lexer.skip_line();
                    statements.push(Statement::DirectiveStmt(DirectiveStmt {}));
                    proof {
                        assert(stmt_views(statements@) =~= pre.push(StatementView::Directive));
                        match spec_stmts(s, self.lexer.pos as int) {
                            ParseStep::Parsed(rest) => {
                                assert(pre.push(StatementView::Directive) + rest =~= pre + (seq![
                                    StatementView::Directive,
                                ] + rest));
                            },
                            ParseStep::Fail(_) => {},
                        }
                    }
                },
                Ok(Some(Token::UserVariable(_))) => {
                    proof {
                        lemma_find_char(s, self.lexer.pos as int, '\n');
                    }
                    self.lexer.skip_line();
                    statements.push(Statement::AssignStmt(AssignStmt {}));
                    proof {
                        assert(stmt_views(statements@) =~= pre.push(StatementView::Assign));
                        match spec_stmts(s, self.lexer.pos as int) {
                            ParseStep::Parsed(rest) => {
                                assert(pre.push(StatementView::Assign) + rest =~= pre + (seq![
                                    StatementView::Assign,
                                ] + rest));
                            },
                            ParseStep::Fail(_) => {},
                        }
                    }
                },
                Ok(Some(_)) => {
                    return Err(MakeError::Parse { pos: ip_exec });
                },
            }
        }
        proof {
            assert(stmt_views(statements@) + Seq::<StatementView>::empty() =~= stmt_views(
                statements@,
            ));
        }
        Ok(Program { statements })
    }

    /// Parse one rule after `target :`: the behaviour is exactly
    /// [`spec_rule`] at the current position.
    fn parse_rule(&mut self, target: String) -> (r: Result<Statement, MakeError>)
        requires
            old(self).wf(),
            old(self).lexer.pos <= old(self).input().len(),
        ensures
            final(self).wf(),
            final(self).input() == old(self).input(),
            final(self).lexer.chars@ == old(self).lexer.chars@,
            final(self).lexer.pos <= final(self).input().len(),
            match spec_rule(old(self).input(), old(self).lexer.pos as int, target@) {
                RuleStep::Read(rv, k) => r matches Ok(st) && st@ == StatementView::Rule(rv)
                    && final(self).lexer.pos as int == k,
                RuleStep::Fail(e) => r matches Err(er) && er@ == e,
            },
    {
        let ghost s = self.input();
        let ghost d0 = self.lexer.pos as int;
        let mut prerequisite: Vec<String> = Vec::new();
        let mut done = false;
        while !done
            invariant
                self.wf(),
                old(self).wf(),
                s == self.input(),
                s == old(self).input(),
                d0 == old(self).lexer.pos as int,
                self.lexer.pos <= s.len(),
                !done ==> deps_prepend(str_views(prerequisite@), spec_deps(s, self.lexer.pos as int))
                    == spec_deps(s, d0),
                done ==> spec_deps(s, d0) == DepsStep::Read(
                    str_views(prerequisite@),
                    self.lexer.pos as int,
                ),
            decreases s.len() - self.lexer.pos + (if done {
                0int
            } else {
                1int
            }),
        {
            let ghost ip = self.lexer.pos as int;
            let ghost pre = str_views(prerequisite@);
            proof {
                lemma_next_advances(s, ip);
            }
            let ip_exec = self.lexer.pos;
            match self.lexer.next() {
                Err(e) => {
                    return Err(e);
                },
                Ok(None) => {
                    done = true;
                    proof {
                        assert(str_views(prerequisite@) + Seq::<Seq<char>>::empty() =~= str_views(
                            prerequisite@,
                        ));
                    }
                },
                Ok(Some(Token::NewLine)) => {
                    done = true;
                    proof {
                        assert(str_views(prerequisite@) + Seq::<Seq<char>>::empty() =~= str_views(
                            prerequisite@,
                        ));
                    }
                },
                Ok(Some(Token::Identifier(w))) => {
                    let ghost wv = w@;
                    prerequisite.push(w);
                    proof {
                        assert(str_views(prerequisite@) =~= pre.push(wv));
                        match spec_deps(s, self.lexer.pos as int) {
                            DepsStep::Read(rest, _) => {
                                assert(pre.push(wv) + rest =~= pre + (seq![wv] + rest));
                            },
                            DepsStep::Fail(_) => {},
                        }
                    }
                },
                Ok(Some(_)) => {
                    return Err(MakeError::Parse { pos: ip_exec });
                },
            }
        }
        let ghost deps = str_views(prerequisite@);
        let ghost c0 = self.lexer.pos as int;
        proof {
            assert(deps + Seq::<Seq<char>>::empty() =~= deps);
            assert(spec_deps(s, d0) == DepsStep::Read(deps, c0));
        }
        let mut commands: Vec<Command> = Vec::new();
        done = false;
        while !done
            invariant
                self.wf(),
                old(self).wf(),
                s == self.input(),
                s == old(self).input(),
                d0 == old(self).lexer.pos as int,
                spec_deps(s, d0) == DepsStep::Read(str_views(prerequisite@), c0),
                self.lexer.pos <= s.len(),
                cmds_prepend(cmd_views(commands@), spec_cmds(s, self.lexer.pos as int))
                    == spec_cmds(s, c0),
                done ==> spec_cmds(s, self.lexer.pos as int) == CmdsStep::Read(
                    Seq::<CommandView>::empty(),
                    self.lexer.pos as int,
                ),
            decreases s.len() - self.lexer.pos + (if done {
                0int
            } else {
                1int
            }),
        {
            let ghost ip = self.lexer.pos as int;
            let ghost pre = cmd_views(commands@);
            proof {
                lemma_next_advances(s, ip);
            }
            match self.peek() {
                Err(e) => {
                    return Err(e);
                },
                Ok(Some(Token::Tab)) => {
                    let _tab = self.lexer.next();
                    let ghost j = self.lexer.pos as int;
                    proof {
                        lemma_find_char(s, j, '\n');
                    }
                    let cmd = self.lexer.next_command();
                    let ghost cv = cmd@;
                    let ghost e = self.lexer.pos as int;
                    proof {
                        assert(e == find_char(s, j, '\n'));
                        if e < s.len() {
                            assert(s[e] == '\n');
                            assert(crate::lexer::skip_spaces(s, e) == e);
                        }
                        lemma_next_advances(s, e);
                    }
                    match self.lexer.next() {
                        Ok(Some(Token::NewLine)) => {
                        },
                        Ok(None) => {
                        },
                        _ => {
                            proof {
                                assert(false);
                            }
                            return Err(MakeError::Parse { pos: 0 });
                        },
                    }
                    commands.push(cmd);
                    proof {
                        assert(cmd_views(commands@) =~= pre.push(cv));
                        match spec_cmds(s, self.lexer.pos as int) {
                            CmdsStep::Read(rest, _) => {
                                assert(pre.push(cv) + rest =~= pre + (seq![cv] + rest));
                                if rest.len() == 0 {
                                    assert(pre.push(cv) + rest =~= pre + seq![cv]);
                                }
                            },
                            CmdsStep::Fail(_) => {},
                        }
                    }
                },
                Ok(_) => {
                    done = true;
                },
            }
        }
        let ghost cmds = cmd_views(commands@);
        proof {
            assert(cmds + Seq::<CommandView>::empty() =~= cmds);
        }
        Ok(Statement::RuleStmt(RuleStmt { target, prerequisite, commands }))
    }
}

} // verus!
