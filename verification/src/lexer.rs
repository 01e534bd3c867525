//! Character-level lexer.
//!
//! The lexer walks the input text once, left to right. Each structural
//! marker character becomes a token of its own; every maximal run of
//! non-marker characters becomes a single `Content` token. Concatenating
//! the literal text of the emitted tokens reproduces the input exactly.

use vstd::prelude::*;
use vstd::string::StrSliceExecFns;

verus! {

/// Ghost model of a token: the same variants as [`MarkdownToken`], with
/// `Content` carrying its text as a sequence of characters.
pub enum TokenModel {
    Hash,
    Asterisk,
    Underscore,
    Backslash,
    OpenParen,
    CloseParen,
    OpenSquareBracket,
    CloseSquareBracket,
    Dash,
    CarriageReturn,
    NewLine,
    EndOfInput,
    Content(Seq<char>),
}

/// One lexical token: a single structural marker character, a line-structure
/// marker, or a maximal run of plain content. `EndOfInput` never appears in
/// a lexed stream; it is the sentinel that out-of-bounds lookups return.
#[derive(Debug, PartialEq)]
pub enum MarkdownToken {
    Hash,
    Asterisk,
    Underscore,
    Backslash,
    OpenParen,
    CloseParen,
    OpenSquareBracket,
    CloseSquareBracket,
    Dash,
    CarriageReturn,
    NewLine,
    EndOfInput,
    Content(String),
}

impl View for MarkdownToken {
    type V = TokenModel;

    open spec fn view(&self) -> TokenModel {
        match self {
            MarkdownToken::Hash => TokenModel::Hash,
            MarkdownToken::Asterisk => TokenModel::Asterisk,
            MarkdownToken::Underscore => TokenModel::Underscore,
            MarkdownToken::Backslash => TokenModel::Backslash,
            MarkdownToken::OpenParen => TokenModel::OpenParen,
            MarkdownToken::CloseParen => TokenModel::CloseParen,
            MarkdownToken::OpenSquareBracket => TokenModel::OpenSquareBracket,
            MarkdownToken::CloseSquareBracket => TokenModel::CloseSquareBracket,
            MarkdownToken::Dash => TokenModel::Dash,
            MarkdownToken::CarriageReturn => TokenModel::CarriageReturn,
            MarkdownToken::NewLine => TokenModel::NewLine,
            MarkdownToken::EndOfInput => TokenModel::EndOfInput,
            MarkdownToken::Content(s) => TokenModel::Content(s@),
        }
    }
}

/// The characters that the lexer treats as structural: the nine marker
/// characters plus the two line-structure characters.
pub open spec fn is_marker_char(c: char) -> bool {
    ||| c == '#'
    ||| c == '*'
    ||| c == '_'
    ||| c == '\\'
    ||| c == '('
    ||| c == ')'
    ||| c == '['
    ||| c == ']'
    ||| c == '-'
    ||| c == '\r'
    ||| c == '\n'
}

/// The token that a single structural character lexes to.
pub open spec fn char_model(c: char) -> TokenModel {
    if c == '#' {
        TokenModel::Hash
    } else if c == '*' {
        TokenModel::Asterisk
    } else if c == '_' {
        TokenModel::Underscore
    } else if c == '\\' {
        TokenModel::Backslash
    } else if c == '(' {
        TokenModel::OpenParen
    } else if c == ')' {
        TokenModel::CloseParen
    } else if c == '[' {
        TokenModel::OpenSquareBracket
    } else if c == ']' {
        TokenModel::CloseSquareBracket
    } else if c == '-' {
        TokenModel::Dash
    } else if c == '\r' {
        TokenModel::CarriageReturn
    } else {
        TokenModel::NewLine
    }
}

/// The literal text of one token. Marker tokens decode to their single
/// character, `EndOfInput` to the empty sequence.
pub open spec fn tok_text(t: TokenModel) -> Seq<char> {
    match t {
        TokenModel::Hash => seq!['#'],
        TokenModel::Asterisk => seq!['*'],
        TokenModel::Underscore => seq!['_'],
        TokenModel::Backslash => seq!['\\'],
        TokenModel::OpenParen => seq!['('],
        TokenModel::CloseParen => seq![')'],
        TokenModel::OpenSquareBracket => seq!['['],
        TokenModel::CloseSquareBracket => seq![']'],
        TokenModel::Dash => seq!['-'],
        TokenModel::CarriageReturn => seq!['\r'],
        TokenModel::NewLine => seq!['\n'],
        TokenModel::EndOfInput => Seq::empty(),
        TokenModel::Content(s) => s,
    }
}

/// The literal text of a whole token sequence.
pub open spec fn toks_text(ts: Seq<TokenModel>) -> Seq<char>
    decreases ts.len(),
{
    if ts.len() == 0 {
        Seq::empty()
    } else {
        tok_text(ts[0]) + toks_text(ts.drop_first())
    }
}

/// The position at which the run of plain content starting at `i` ends:
/// the first index at or after `i` holding a structural character, or the
/// end of the text.
pub open spec fn run_end(s: Seq<char>, i: int) -> int
    decreases s.len() - i,
{
    if i < 0 || i >= s.len() || is_marker_char(s[i]) {
        i
    } else {
        run_end(s, i + 1)
    }
}

pub proof fn lemma_run_end_bounds(s: Seq<char>, i: int)
    requires
        0 <= i <= s.len(),
    ensures
        i <= run_end(s, i) <= s.len(),
        forall|j: int| i <= j < run_end(s, i) ==> !is_marker_char(#[trigger] s[j]),
        run_end(s, i) < s.len() ==> is_marker_char(s[run_end(s, i)]),
    decreases s.len() - i,
{
    if i < s.len() && !is_marker_char(s[i]) {
        lemma_run_end_bounds(s, i + 1);
    }
}

/// The tokens that the lexer produces for the text from position `i` on.
pub open spec fn tokenize_from(s: Seq<char>, i: int) -> Seq<TokenModel>
    decreases s.len() - i,
    when 0 <= i
    via tokenize_from_decreases
{
    if i >= s.len() {
        Seq::empty()
    } else if is_marker_char(s[i]) {
        seq![char_model(s[i])] + tokenize_from(s, i + 1)
    } else {
        seq![TokenModel::Content(s.subrange(i, run_end(s, i)))] + tokenize_from(s, run_end(s, i))
    }
}

#[via_fn]
proof fn tokenize_from_decreases(s: Seq<char>, i: int) {
    if 0 <= i < s.len() && !is_marker_char(s[i]) {
        lemma_run_end_bounds(s, i);
    }
}

/// The tokens that the lexer produces for a whole text.
pub open spec fn tokenize(s: Seq<char>) -> Seq<TokenModel> {
    tokenize_from(s, 0)
}

proof fn lemma_toks_text_cons(t: TokenModel, ts: Seq<TokenModel>)
    ensures
        toks_text(seq![t] + ts) == tok_text(t) + toks_text(ts),
{
    let whole = seq![t] + ts;
    assert(whole[0] == t);
    assert(whole.drop_first() =~= ts);
}

proof fn lemma_tokenize_from_reconstructs(s: Seq<char>, i: int)
    requires
        0 <= i <= s.len(),
    ensures
        toks_text(tokenize_from(s, i)) == s.subrange(i, s.len() as int),
    decreases s.len() - i,
{
    if i >= s.len() {
        assert(s.subrange(i, s.len() as int) =~= Seq::<char>::empty());
    } else if is_marker_char(s[i]) {
        lemma_tokenize_from_reconstructs(s, i + 1);
        lemma_toks_text_cons(char_model(s[i]), tokenize_from(s, i + 1));
        assert(tok_text(char_model(s[i])) =~= seq![s[i]]);
        assert(seq![s[i]] + s.subrange(i + 1, s.len() as int) =~= s.subrange(i, s.len() as int));
    } else {
        let e = run_end(s, i);
        lemma_run_end_bounds(s, i);
        lemma_tokenize_from_reconstructs(s, e);
        lemma_toks_text_cons(TokenModel::Content(s.subrange(i, e)), tokenize_from(s, e));
        assert(s.subrange(i, e) + s.subrange(e, s.len() as int) =~= s.subrange(i, s.len() as int));
    }
}

/// Law: concatenating the literal text of every token produced for a text
/// reproduces that text exactly.
pub proof fn lemma_tokenize_reconstructs(s: Seq<char>)
    ensures
        toks_text(tokenize(s)) == s,
{
    lemma_tokenize_from_reconstructs(s, 0);
    assert(s.subrange(0, s.len() as int) =~= s);
}

/// No two adjacent tokens of the sequence are both `Content`.
pub open spec fn no_adjacent_content(ts: Seq<TokenModel>) -> bool {
    forall|j: int| 0 <= j < ts.len() - 1 ==> !((#[trigger] ts[j]) is Content && ts[j + 1]
        is Content)
}

proof fn lemma_tokenize_from_no_adjacent(s: Seq<char>, i: int)
    requires
        0 <= i <= s.len(),
    ensures
        no_adjacent_content(tokenize_from(s, i)),
        i < s.len() && is_marker_char(s[i]) ==> !(tokenize_from(s, i)[0] is Content),
    decreases s.len() - i,
{
    if i >= s.len() {
    } else if is_marker_char(s[i]) {
        lemma_tokenize_from_no_adjacent(s, i + 1);
        let whole = seq![char_model(s[i])] + tokenize_from(s, i + 1);
        assert forall|j: int| 0 <= j < whole.len() - 1 implies !((#[trigger] whole[j]) is Content
            && whole[j + 1] is Content) by {
            if j > 0 {
                assert(whole[j] == tokenize_from(s, i + 1)[j - 1]);
                assert(whole[j + 1] == tokenize_from(s, i + 1)[j]);
            }
        }
    } else {
        let e = run_end(s, i);
        lemma_run_end_bounds(s, i);
        lemma_tokenize_from_no_adjacent(s, e);
        let rest = tokenize_from(s, e);
        let whole = seq![TokenModel::Content(s.subrange(i, e))] + rest;
        assert forall|j: int| 0 <= j < whole.len() - 1 implies !((#[trigger] whole[j]) is Content
            && whole[j + 1] is Content) by {
            if j == 0 {
                assert(whole[1] == rest[0]);
            } else {
                assert(whole[j] == rest[j - 1]);
                assert(whole[j + 1] == rest[j]);
            }
        }
    }
}

/// Law: the lexer always extends a content run maximally, so no two
/// adjacent tokens it produces are both `Content`.
pub proof fn lemma_tokenize_no_adjacent_content(s: Seq<char>)
    ensures
        no_adjacent_content(tokenize(s)),
{
    lemma_tokenize_from_no_adjacent(s, 0);
}

/// A line/column position in the input text.
#[derive(Debug)]
pub struct Position {
    line: usize,
    index: usize,
}

impl View for Position {
    type V = (nat, nat);

    closed spec fn view(&self) -> (nat, nat) {
        (self.line as nat, self.index as nat)
    }
}

impl Position {
    /// The position one step further: with `next_line` false the start of
    /// the following line, with `next_line` true the next column of the
    /// same line.
    pub fn next_pos(&self, next_line: bool) -> (p: Position)
        requires
            !next_line ==> self@.0 < usize::MAX,
            next_line ==> self@.1 < usize::MAX,
        ensures
            !next_line ==> p@ == ((self@.0 + 1) as nat, 0nat),
            next_line ==> p@ == (self@.0, (self@.1 + 1) as nat),
    {
        if !next_line {
            Position { line: self.line + 1, index: 0 }
        } else {
            Position { line: self.line, index: self.index + 1 }
        }
    }
}

/// The lexer: the input text and a cursor, the index of the lookahead
/// character.
pub struct Lexer<'a> {
    input: &'a str,
    pos: usize,
    len: usize,
    current_pos: Position,
}

impl<'a> Lexer<'a> {
    /// The input text.
    pub closed spec fn text(&self) -> Seq<char> {
        self.input@
    }

    /// The index of the lookahead character.
    pub closed spec fn cursor(&self) -> int {
        self.pos as int
    }

    pub closed spec fn wf(&self) -> bool {
        self.pos <= self.len && self.len == self.input@.len()
    }

    /// A lexer over `content`, positioned at its first character.
    pub fn new(content: &'a str) -> (l: Lexer<'a>)
        ensures
            l.wf(),
            l.text() == content@,
            l.cursor() == 0,
    {
        let len = content.unicode_len();
        Lexer { input: content, pos: 0, len, current_pos: Position { line: 1, index: 0 } }
    }

    /// Consumes the maximal run of plain content at the cursor and returns
    /// its text; the terminating structural character, if any, is left as
    /// the lookahead.
    fn advance_content(&mut self) -> (r: String)
        requires
            old(self).wf(),
        ensures
            final(self).wf(),
            final(self).text() == old(self).text(),
            final(self).cursor() == run_end(old(self).text(), old(self).cursor()),
            r@ == old(self).text().subrange(old(self).cursor(), final(self).cursor()),
    {
        let start = self.pos;
        let inp = self.input;
        while self.pos < self.len && !is_marker(inp.get_char(self.pos))
            invariant
                self.wf(),
                self.input == inp,
                start <= self.pos,
                run_end(self.text(), start as int) == run_end(self.text(), self.pos as int),
            decreases self.len - self.pos,
        {
            self.pos = self.pos + 1;
        }
        proof {
            assert(run_end(self.text(), self.pos as int) == self.pos as int);
        }
        let sub = inp.substring_char(start, self.pos);
        sub.to_owned()
    }

    /// Produces the next token, or `None` when the input is exhausted.
    pub fn next(&mut self) -> (r: Option<MarkdownToken>)
        requires
            old(self).wf(),
        ensures
            final(self).wf(),
            final(self).text() == old(self).text(),
            r is None <==> old(self).cursor() >= old(self).text().len(),
            r is None ==> final(self).cursor() == old(self).cursor(),
            r matches Some(t) ==> {
                &&& old(self).cursor() < final(self).cursor() <= old(self).text().len()
                &&& tokenize_from(old(self).text(), old(self).cursor()) == seq![t@] + tokenize_from(
                    old(self).text(),
                    final(self).cursor(),
                )
            },
    {
        if self.pos >= self.len {
            return None;
        }
        let inp = self.input;
        let ghost p = self.pos as int;
        let c = inp.get_char(self.pos);
        let t = if is_marker(c) {
            self.pos = self.pos + 1;
            match c {
                '#' => MarkdownToken::Hash,
                '*' => MarkdownToken::Asterisk,
                '_' => MarkdownToken::Underscore,
                '\\' => MarkdownToken::Backslash,
                '(' => MarkdownToken::OpenParen,
                ')' => MarkdownToken::CloseParen,
                '[' => MarkdownToken::OpenSquareBracket,
                ']' => MarkdownToken::CloseSquareBracket,
                '-' => MarkdownToken::Dash,
                '\r' => MarkdownToken::CarriageReturn,
                _ => MarkdownToken::NewLine,
            }
        } else {
            let s = self.advance_content();
            proof {
                lemma_run_end_bounds(self.text(), p);
            }
            MarkdownToken::Content(s)
        };
        proof {
            assert(t@ == tokenize_from(self.text(), p)[0]);
            assert(tokenize_from(self.text(), p) == seq![t@] + tokenize_from(
                self.text(),
                self.cursor(),
            ));
        }
        Some(t)
    }
}

/// Whether `c` is one of the structural characters.
fn is_marker(c: char) -> (b: bool)
    ensures
        b == is_marker_char(c),
{
    c == '#' || c == '*' || c == '_' || c == '\\' || c == '(' || c == ')' || c == '[' || c == ']'
        || c == '-' || c == '\r' || c == '\n'
}

} // verus!
