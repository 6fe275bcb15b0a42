//! The tokenizer: a forward-only cursor over preprocessed makefile text.
//!
//! Character classification: `:` `;` tab and newline are single-character
//! tokens, a plain space is skipped, `.` begins a configuration directive
//! name, `$(` begins a user-variable reference, and any other character
//! starts an identifier read greedily up to the next whitespace, colon or
//! semicolon (`all:` names the target `all`).  A bare `$` not followed by
//! `(` is an unsupported construct and is reported as a lexical error
//! rather than a crash.
//!
//! A second capability on the same cursor, [`Lexer::next_command`], reads the
//! remainder of the current physical line verbatim and splits it on single
//! spaces into a program name and its arguments; recipe bodies are opaque
//! shell text, not makefile grammar, so they never go through the token
//! classifier.

use vstd::prelude::*;

use crate::error::{MakeError, MakeErrorView};

verus! {

use vstd::string::StrSliceExecFns;
use vstd::string::StringExecFns;

/// One lexical unit of the makefile grammar.
#[derive(Debug, PartialEq, Eq)]
pub enum Token {
    Identifier(String),
    Colon,
    SemiColon,
    Tab,
    NewLine,
    /// `$(name)`
    UserVariable(String),
    /// `.NAME`
    ConfigVariable(String),
}

/// The mathematical shadow of [`Token`]: names as character sequences.
pub enum TokenView {
    Identifier(Seq<char>),
    Colon,
    SemiColon,
    Tab,
    NewLine,
    UserVariable(Seq<char>),
    ConfigVariable(Seq<char>),
}

impl View for Token {
    type V = TokenView;

    open spec fn view(&self) -> TokenView {
        match self {
            Token::Identifier(s) => TokenView::Identifier(s@),
            Token::Colon => TokenView::Colon,
            Token::SemiColon => TokenView::SemiColon,
            Token::Tab => TokenView::Tab,
            Token::NewLine => TokenView::NewLine,
            Token::UserVariable(s) => TokenView::UserVariable(s@),
            Token::ConfigVariable(s) => TokenView::ConfigVariable(s@),
        }
    }
}

/// A recipe line already split into a program and its arguments.
#[derive(Debug, PartialEq, Eq)]
pub struct Command {
    pub command: String,
    pub args: Vec<String>,
}

/// The mathematical shadow of [`Command`].
pub struct CommandView {
    pub program: Seq<char>,
    pub args: Seq<Seq<char>>,
}

/// The views of a sequence of strings.
pub open spec fn str_views(v: Seq<String>) -> Seq<Seq<char>> {
    v.map_values(|a: String| a@)
}

impl View for Command {
    type V = CommandView;

    open spec fn view(&self) -> CommandView {
        CommandView { program: self.command@, args: str_views(self.args@) }
    }
}

impl Clone for Command {
    /// A deep copy that provably keeps the program and arguments.
    fn clone(&self) -> (r: Command)
        ensures
            r@ == self@,
    {
        let mut args: Vec<String> = Vec::new();
        proof {
            assert(str_views(args@) =~= str_views(self.args@).subrange(0, 0));
        }
        let mut k: usize = 0;
        while k < self.args.len()
            invariant
                k <= self.args@.len(),
                str_views(args@) == str_views(self.args@).subrange(0, k as int),
            decreases self.args@.len() - k,
        {
            args.push(self.args[k].clone());
            proof {
                assert(str_views(args@) =~= str_views(args@.drop_last()).push(
                    self.args@[k as int]@,
                ));
                assert(str_views(self.args@).subrange(0, k + 1 as int) =~= str_views(
                    self.args@,
                ).subrange(0, k as int).push(str_views(self.args@)[k as int]));
            }
            k = k + 1;
        }
        proof {
            assert(str_views(self.args@).subrange(0, self.args@.len() as int) =~= str_views(
                self.args@,
            ));
        }
        Command { command: self.command.clone(), args }
    }
}

/// A character that ends a word: whitespace, or the start of a colon or
/// semicolon token (`all:` names the target `all`).
pub open spec fn word_break(c: char) -> bool {
    c == ' ' || c == '\t' || c == '\n' || c == '\r' || c == ':' || c == ';'
}

/// The first position at or after `i` holding a word-break character, or the
/// end of the text.
pub open spec fn word_end(s: Seq<char>, i: int) -> int
    decreases s.len() - i,
{
    if 0 <= i < s.len() {
        if word_break(s[i]) {
            i
        } else {
            word_end(s, i + 1)
        }
    } else {
        i
    }
}

/// The first position at or after `i` holding `c`, or the end of the text.
pub open spec fn find_char(s: Seq<char>, i: int, c: char) -> int
    decreases s.len() - i,
{
    if 0 <= i < s.len() {
        if s[i] == c {
            i
        } else {
            find_char(s, i + 1, c)
        }
    } else {
        i
    }
}

/// The first position at or after `i` holding a non-space character, or the
/// end of the text.
pub open spec fn skip_spaces(s: Seq<char>, i: int) -> int
    decreases s.len() - i,
{
    if 0 <= i < s.len() && s[i] == ' ' {
        skip_spaces(s, i + 1)
    } else {
        i
    }
}

pub proof fn lemma_word_end(s: Seq<char>, i: int)
    ensures
        i <= word_end(s, i),
        i <= s.len() ==> word_end(s, i) <= s.len(),
        word_end(s, i) < s.len() && 0 <= i ==> word_break(s[word_end(s, i)]),
        forall|k: int| i <= k < word_end(s, i) ==> !word_break(s[k]),
    decreases s.len() - i,
{
    if 0 <= i < s.len() && !word_break(s[i]) {
        lemma_word_end(s, i + 1);
    }
}

pub proof fn lemma_find_char(s: Seq<char>, i: int, c: char)
    ensures
        i <= find_char(s, i, c),
        i <= s.len() ==> find_char(s, i, c) <= s.len(),
        find_char(s, i, c) < s.len() && 0 <= i ==> s[find_char(s, i, c)] == c,
        forall|k: int| i <= k < find_char(s, i, c) ==> s[k] != c,
    decreases s.len() - i,
{
    if 0 <= i < s.len() && s[i] != c {
        lemma_find_char(s, i + 1, c);
    }
}

/// Where the first occurrence is already known, `find_char` returns it.
pub proof fn lemma_find_char_unique(s: Seq<char>, i: int, c: char, j: int)
    requires
        0 <= i <= j <= s.len(),
        forall|k: int| i <= k < j ==> s[k] != c,
        j == s.len() || s[j] == c,
    ensures
        find_char(s, i, c) == j,
    decreases j - i,
{
    if i < j {
        lemma_find_char_unique(s, i + 1, c, j);
    }
}

pub proof fn lemma_skip_spaces(s: Seq<char>, i: int)
    ensures
        i <= skip_spaces(s, i),
        i <= s.len() ==> skip_spaces(s, i) <= s.len(),
    decreases s.len() - i,
{
    if 0 <= i < s.len() && s[i] == ' ' {
        lemma_skip_spaces(s, i + 1);
    }
}

/// What one call of the token classifier does at position `i`: the end of the
/// input, one token together with the position after it, or a lexical error
/// at the given position.
pub enum LexStep {
    End,
    Tok(TokenView, int),
    Fail(int),
}

/// The token that starts at or after position `i`, after skipping spaces.
pub open spec fn spec_next(s: Seq<char>, i: int) -> LexStep {
    let k = skip_spaces(s, i);
    if !(0 <= k < s.len()) {
        LexStep::End
    } else {
        let c = s[k];
        if c == ':' {
            LexStep::Tok(TokenView::Colon, k + 1)
        } else if c == ';' {
            LexStep::Tok(TokenView::SemiColon, k + 1)
        } else if c == '\t' {
            LexStep::Tok(TokenView::Tab, k + 1)
        } else if c == '\n' {
            LexStep::Tok(TokenView::NewLine, k + 1)
        } else if c == '$' {
            if k + 1 < s.len() && s[k + 1] == '(' {
                let e = find_char(s, k + 2, ')');
                LexStep::Tok(
                    TokenView::UserVariable(s.subrange(k + 2, e)),
                    if e < s.len() {
                        e + 1
                    } else {
                        e
                    },
                )
            } else {
                LexStep::Fail(k)
            }
        } else if c == '.' {
            let e = word_end(s, k + 1);
            LexStep::Tok(TokenView::ConfigVariable(s.subrange(k + 1, e)), e)
        } else {
            let e = word_end(s, k + 1);
            LexStep::Tok(TokenView::Identifier(s.subrange(k, e)), e)
        }
    }
}

/// Every token strictly advances the cursor and stays inside the text; a
/// lexical error points at a real position.
pub proof fn lemma_next_advances(s: Seq<char>, i: int)
    ensures
        spec_next(s, i) matches LexStep::Tok(t, j) ==> i < j <= s.len(),
        spec_next(s, i) matches LexStep::Fail(p) ==> i <= p < s.len(),
{
    lemma_skip_spaces(s, i);
    let k = skip_spaces(s, i);
    if 0 <= k < s.len() {
        lemma_word_end(s, k + 1);
        lemma_find_char(s, k + 2, ')');
    }
}

/// The fields of the span `[i, e)`, split on single spaces.  A split always
/// yields at least one field; consecutive spaces yield empty fields.
pub open spec fn split_fields(s: Seq<char>, i: int, e: int) -> Seq<Seq<char>>
    decreases e - i,
    via split_fields_dec
{
    if !(0 <= i <= e <= s.len()) {
        seq![s.subrange(i, e)]
    } else {
        let m = find_sp(s, i, e);
        if m == e {
            seq![s.subrange(i, e)]
        } else {
            seq![s.subrange(i, m)] + split_fields(s, m + 1, e)
        }
    }
}

#[via_fn]
proof fn split_fields_dec(s: Seq<char>, i: int, e: int) {
    if 0 <= i <= e <= s.len() {
        lemma_find_sp(s, i, e);
    }
}

/// The first position of a space in `[i, e)`, or `e`.
pub open spec fn find_sp(s: Seq<char>, i: int, e: int) -> int
    decreases e - i,
{
    if 0 <= i < e <= s.len() {
        if s[i] == ' ' {
            i
        } else {
            find_sp(s, i + 1, e)
        }
    } else {
        e
    }
}

pub proof fn lemma_find_sp(s: Seq<char>, i: int, e: int)
    requires
        0 <= i <= e <= s.len(),
    ensures
        i <= find_sp(s, i, e) <= e,
        find_sp(s, i, e) < e ==> s[find_sp(s, i, e)] == ' ',
        forall|k: int| i <= k < find_sp(s, i, e) ==> s[k] != ' ',
    decreases e - i,
{
    if 0 <= i < e <= s.len() && s[i] != ' ' {
        lemma_find_sp(s, i + 1, e);
    }
}

/// Where the first space is already known, `find_sp` returns it.
pub proof fn lemma_find_sp_unique(s: Seq<char>, i: int, e: int, j: int)
    requires
        0 <= i <= j <= e <= s.len(),
        forall|k: int| i <= k < j ==> s[k] != ' ',
        j == e || s[j] == ' ',
    ensures
        find_sp(s, i, e) == j,
    decreases j - i,
{
    if i < j {
        lemma_find_sp_unique(s, i + 1, e, j);
    }
}

pub proof fn lemma_split_fields_len(s: Seq<char>, i: int, e: int)
    ensures
        split_fields(s, i, e).len() >= 1,
    decreases e - i,
{
    if 0 <= i <= e <= s.len() {
        lemma_find_sp(s, i, e);
        let m = find_sp(s, i, e);
        if m != e {
            lemma_split_fields_len(s, m + 1, e);
        }
    }
}

/// The lazy, forward-only cursor that classifies the makefile text.
pub struct Lexer {
    /// The preprocessed input (line continuations already joined).
    pub text: String,
    /// The characters of `text`, for single-character inspection.
    pub chars: Vec<char>,
    /// The position of the next unread character.
    pub pos: usize,
}

impl Lexer {
    /// The cursor holds the characters of the text and has not run past its
    /// end.
    pub open spec fn wf(&self) -> bool {
        self.chars@ == self.text@ && self.pos <= self.chars@.len()
    }

    /// The input this cursor was made for.
    pub open spec fn input(&self) -> Seq<char> {
        self.text@
    }

    pub fn new(contents: String) -> (r: Lexer)
        ensures
            r.wf(),
            r.input() == contents@,
            r.pos == 0,
    {
        let n = contents.as_str().unicode_len();
        let mut chars: Vec<char> = Vec::new();
        let mut i: usize = 0;
        while i < n
            invariant
                i <= n,
                n == contents@.len(),
                chars@ =~= contents@.subrange(0, i as int),
            decreases n - i,
        {
            chars.push(contents.as_str().get_char(i));
            assert(chars@ =~= contents@.subrange(0, i + 1 as int));
            i = i + 1;
        }
        assert(chars@ =~= contents@);
        Lexer { text: contents, chars, pos: 0 }
    }

    /// Whether the whole text has been consumed.
    pub fn finish(&self) -> (r: bool)
        requires
            self.wf(),
        ensures
            r == (self.pos == self.input().len()),
    {
        self.pos == self.chars.len()
    }

    /// The next character, without consuming it.
    pub fn peek_char(&self) -> (r: Option<char>)
        requires
            self.wf(),
        ensures
            match r {
                Some(c) => self.pos < self.input().len() && c == self.input()[self.pos as int],
                None => self.pos == self.input().len(),
            },
    {
        if self.pos < self.chars.len() {
            Some(self.chars[self.pos])
        } else {
            None
        }
    }

    /// The next character, consuming it.
    pub fn read_char(&mut self) -> (r: Option<char>)
        requires
            old(self).wf(),
        ensures
            final(self).wf(),
            final(self).input() == old(self).input(),
            final(self).chars@ == old(self).chars@,
            ({
                let p = old(self).pos as int;
                match r {
                    Some(c) => p < old(self).input().len() && c == old(self).input()[p]
                        && final(self).pos == p + 1,
                    None => p == old(self).input().len() && final(self).pos == p,
                }
            }),
    {
        if self.pos < self.chars.len() {
            let c = self.chars[self.pos];
            self.pos = self.pos + 1;
            Some(c)
        } else {
            None
        }
    }

    /// Whether the next character is `expected`, without consuming it.
    pub fn expected(&self, expected: char) -> (r: bool)
        requires
            self.wf(),
        ensures
            r == (self.pos < self.input().len() && self.input()[self.pos as int] == expected),
    {
        match self.peek_char() {
            Some(c) => c == expected,
            None => false,
        }
    }

    /// Whether no character is left.
    pub fn is_empty(&self) -> (r: bool)
        requires
            self.wf(),
        ensures
            r == (self.pos == self.input().len()),
    {
        self.finish()
    }

    /// The characters of the span `[from, to)` as a fresh string.
    fn span(&self, from: usize, to: usize) -> (r: String)
        requires
            self.wf(),
            from <= to <= self.input().len(),
        ensures
            r@ == self.input().subrange(from as int, to as int),
    {
        String::from_str(self.text.as_str().substring_char(from, to))
    }

    /// The position of the first word-break character at or after `from`.
    fn scan_word_end(&self, from: usize) -> (j: usize)
        requires
            self.wf(),
            from <= self.input().len(),
        ensures
            j as int == word_end(self.input(), from as int),
    {
        let ghost s = self.input();
        let mut j = from;
        while j < self.chars.len() && !(self.chars[j] == ' ' || self.chars[j] == '\t'
            || self.chars[j] == '\n' || self.chars[j] == '\r' || self.chars[j] == ':'
            || self.chars[j] == ';')
            invariant
                self.wf(),
                from <= j <= s.len(),
                s == self.input(),
                word_end(s, from as int) == word_end(s, j as int),
            decreases s.len() - j,
        {
            j = j + 1;
        }
        j
    }

    /// The position of the first `c` at or after `from`.
    fn scan_char(&self, from: usize, c: char) -> (j: usize)
        requires
            self.wf(),
            from <= self.input().len(),
        ensures
            j as int == find_char(self.input(), from as int, c),
    {
        let ghost s = self.input();
        let mut j = from;
        while j < self.chars.len() && self.chars[j] != c
            invariant
                self.wf(),
                from <= j <= s.len(),
                s == self.input(),
                find_char(s, from as int, c) == find_char(s, j as int, c),
            decreases s.len() - j,
        {
            j = j + 1;
        }
        j
    }

    /// The word starting at the cursor, consumed up to (not including) the
    /// next word-break character.
    fn read_word(&mut self) -> (r: String)
        requires
            old(self).wf(),
        ensures
            final(self).wf(),
            final(self).input() == old(self).input(),
            final(self).chars@ == old(self).chars@,
            final(self).pos as int == word_end(old(self).input(), old(self).pos as int),
            r@ == old(self).input().subrange(old(self).pos as int, final(self).pos as int),
    {
        proof {
            lemma_word_end(self.input(), self.pos as int);
        }
        let e = self.scan_word_end(self.pos);
        let r = self.span(self.pos, e);
        self.pos = e;
        r
    }

    /// Consume the remainder of the current physical line, including its
    /// terminating newline if there is one.
    pub fn skip_line(&mut self)
        requires
            old(self).wf(),
        ensures
            final(self).wf(),
            final(self).input() == old(self).input(),
            final(self).chars@ == old(self).chars@,
            ({
                let e = find_char(old(self).input(), old(self).pos as int, '\n');
                final(self).pos as int == if e < old(self).input().len() {
                    e + 1
                } else {
                    e
                }
            }),
    {
        proof {
            lemma_find_char(self.input(), self.pos as int, '\n');
        }
        let e = self.scan_char(self.pos, '\n');
        self.pos = if e < self.chars.len() {
            e + 1
        } else {
            e
        };
    }

    /// The next token, or `None` at the end of the input, or a lexical error
    /// on an unsupported construct.  The behaviour is exactly [`spec_next`]
    /// at the current position.
    pub fn next(&mut self) -> (r: Result<Option<Token>, MakeError>)
        requires
            old(self).wf(),
        ensures
            final(self).wf(),
            final(self).input() == old(self).input(),
            final(self).chars@ == old(self).chars@,
            match spec_next(old(self).input(), old(self).pos as int) {
                LexStep::End => r matches Ok(o) && o is None && final(self).pos == old(self).input().len(),
                LexStep::Tok(tv, j) => r matches Ok(o) && o matches Some(t) && t@ == tv
                    && final(self).pos as int == j,
                LexStep::Fail(p) => r matches Err(e) && e@ == (MakeErrorView::Lex { pos: p })
                    && final(self).pos as int == p,
            },
    {
        let ghost s = self.input();
        let ghost p0 = self.pos as int;
        while self.pos < self.chars.len() && self.chars[self.pos] == ' '
            invariant
                self.wf(),
                s == self.input(),
                self.chars@ == old(self).chars@,
                skip_spaces(s, p0) == skip_spaces(s, self.pos as int),
            decreases s.len() - self.pos,
        {
            self.pos = self.pos + 1;
        }
        assert(self.pos as int == skip_spaces(s, p0));
        if self.pos == self.chars.len() {
            return Ok(None);
        }
        let k = self.pos;
        let c = self.chars[k];
        if c == ':' {
            self.pos = k + 1;
            Ok(Some(Token::Colon))
        } else if c == ';' {
            self.pos = k + 1;
            Ok(Some(Token::SemiColon))
        } else if c == '\t' {
            self.pos = k + 1;
            Ok(Some(Token::Tab))
        } else if c == '\n' {
            self.pos = k + 1;
            Ok(Some(Token::NewLine))
        } else if c == '$' {
            if k + 1 < self.chars.len() && self.chars[k + 1] == '(' {
                proof {
                    lemma_find_char(s, k + 2, ')');
                }
                let e = self.scan_char(k + 2, ')');
                let name = self.span(k + 2, e);
                self.pos = if e < self.chars.len() {
                    e + 1
                } else {
                    e
                };
                Ok(Some(Token::UserVariable(name)))
            } else {
                Err(MakeError::Lex { pos: k })
            }
        } else if c == '.' {
            self.pos = k + 1;
            let name = self.read_word();
            Ok(Some(Token::ConfigVariable(name)))
        } else {
            proof {
                lemma_word_end(s, k + 1 as int);
            }
            let e = self.scan_word_end(k + 1);
            let name = self.span(k, e);
            self.pos = e;
            Ok(Some(Token::Identifier(name)))
        }
    }

    /// The remainder of the current physical line, split on single spaces:
    /// the first field is the program, the rest are its arguments.  The
    /// terminating newline is left unconsumed.
    pub fn next_command(&mut self) -> (c: Command)
        requires
            old(self).wf(),
        ensures
            final(self).wf(),
            final(self).input() == old(self).input(),
            final(self).chars@ == old(self).chars@,
            ({
                let s = old(self).input();
                let i = old(self).pos as int;
                let e = find_char(s, i, '\n');
                let fields = split_fields(s, i, e);
                &&& c@.program == fields[0]
                &&& c@.args == fields.subrange(1, fields.len() as int)
                &&& final(self).pos as int == e
            }),
    {
        let ghost s = self.input();
        let ghost i0 = self.pos as int;
        proof {
            lemma_find_char(s, i0, '\n');
        }
        let e = self.scan_char(self.pos, '\n');
        let ghost fields = split_fields(s, i0, e as int);
        let mut out: Vec<String> = Vec::new();
        let mut start = self.pos;
        let mut j = self.pos;
        while j < e
            invariant
                self.wf(),
                s == self.input(),
                i0 <= start as int <= j as int <= e as int,
                e as int <= s.len(),
                forall|k: int| start as int <= k < j as int ==> s[k] != ' ',
                fields == str_views(out@) + split_fields(s, start as int, e as int),
            decreases e - j,
        {
            if self.chars[j] == ' ' {
                proof {
                    lemma_find_sp_unique(s, start as int, e as int, j as int);
                    assert(split_fields(s, start as int, e as int) == seq![
                        s.subrange(start as int, j as int),
                    ] + split_fields(s, j + 1 as int, e as int));
                }
                let f = self.span(start, j);
                out.push(f);
                proof {
                    assert(str_views(out@) =~= str_views(out@.drop_last()).push(
                        s.subrange(start as int, j as int),
                    ));
                    assert(fields =~= str_views(out@) + split_fields(s, j + 1 as int, e as int));
                }
                start = j + 1;
            }
            j = j + 1;
        }
        proof {
            lemma_find_sp_unique(s, start as int, e as int, e as int);
            assert(split_fields(s, start as int, e as int) == seq![
                s.subrange(start as int, e as int),
            ]);
        }
        let f = self.span(start, e);
        out.push(f);
        proof {
            assert(str_views(out@) =~= str_views(out@.drop_last()).push(
                s.subrange(start as int, e as int),
            ));
            assert(fields =~= str_views(out@));
        }
        self.pos = e;
        let command = out.remove(0);
        proof {
            assert(str_views(out@) =~= fields.subrange(1, fields.len() as int));
        }
        Command { command, args: out }
    }
}

} // verus!
