//! Splits configuration text into tokens.
use vstd::prelude::*;

use crate::text::{chars_of, string_of};
use crate::token::{lookup_spec, opt_view, Token, TokenView, ESCAPE};

verus! {

/// Unicode's White_Space property, which `char::is_whitespace` tests.
pub open spec fn is_space(c: char) -> bool {
    ('\u{9}' <= c <= '\u{d}') || c == ' ' || c == '\u{85}' || c == '\u{a0}' || c == '\u{1680}'
        || ('\u{2000}' <= c <= '\u{200a}') || c == '\u{2028}' || c == '\u{2029}' || c
        == '\u{202f}' || c == '\u{205f}' || c == '\u{3000}'
}

fn space(c: char) -> (r: bool)
    ensures
        r == is_space(c),
{
    ('\u{9}' <= c && c <= '\u{d}') || c == ' ' || c == '\u{85}' || c == '\u{a0}' || c
        == '\u{1680}' || ('\u{2000}' <= c && c <= '\u{200a}') || c == '\u{2028}' || c
        == '\u{2029}' || c == '\u{202f}' || c == '\u{205f}' || c == '\u{3000}'
}

/// The first position at or after `i` that holds no whitespace (or the end).
pub open spec fn skip_ws(s: Seq<char>, i: int) -> int
    decreases s.len() - i,
{
    if i < 0 || i >= s.len() || !is_space(s[i]) {
        i
    } else {
        skip_ws(s, i + 1)
    }
}

/// Where a word ends: at a closing quote `q`, or at whitespace when `q` is
/// `None`.
pub open spec fn stops(c: char, q: Option<char>) -> bool {
    match q {
        Some(qc) => c == qc,
        None => is_space(c),
    }
}

/// The first position `j >= from` of an unescaped stop character of a word
/// that began at `start`, or the end of `s`. A stop character is escaped when
/// the character before it, within the word, is `\`.
pub open spec fn find_stop(s: Seq<char>, start: int, j: int, q: Option<char>) -> int
    decreases s.len() - j,
{
    if j < 0 || j >= s.len() {
        s.len() as int
    } else if stops(s[j], q) && (j == start || s[j - 1] != ESCAPE) {
        j
    } else {
        find_stop(s, start, j + 1, q)
    }
}

/// The position after a word that stops at `e`: past the stop character if
/// there is one.
pub open spec fn after(s: Seq<char>, e: int) -> int {
    if e < s.len() {
        e + 1
    } else {
        s.len() as int
    }
}

/// The token that begins at or after `i`, and the position after it.
pub open spec fn scan(s: Seq<char>, i: int) -> (Option<TokenView>, int) {
    let j = skip_ws(s, i);
    if j >= s.len() {
        (None, j)
    } else if s[j] == '\'' || s[j] == '"' {
        let e = find_stop(s, j + 1, j + 1, Some(s[j]));
        let w = s.subrange(j + 1, e);
        if e < s.len() {
            (Some(TokenView::Ident(w)), e + 1)
        } else {
            (Some(TokenView::Unterminated(w)), e)
        }
    } else if s[j] == '#' {
        let e = find_stop(s, j, j, None);
        (Some(TokenView::Tag), after(s, e))
    } else {
        let e = find_stop(s, j, j, None);
        (Some(lookup_spec(s.subrange(j, e))), after(s, e))
    }
}

/// The next token that is not a comment, and the position after it.
pub open spec fn next_spec(s: Seq<char>, i: int) -> (Option<TokenView>, int)
    decreases s.len() - i,
{
    let (t, k) = scan(s, i);
    if t == Some(TokenView::Tag) && i < k <= s.len() {
        next_spec(s, k)
    } else {
        (t, k)
    }
}

/// All tokens from position `i` on, comments left out.
pub open spec fn tokens_from(s: Seq<char>, i: int) -> Seq<TokenView>
    decreases s.len() - i,
{
    let (t, k) = next_spec(s, i);
    match t {
        Some(tok) => if i < k <= s.len() {
            seq![tok].add(tokens_from(s, k))
        } else {
            seq![tok]
        },
        None => Seq::empty(),
    }
}

/// The tokens of a whole text, comments left out.
pub open spec fn tokens_of(s: Seq<char>) -> Seq<TokenView> {
    tokens_from(s, 0)
}

fn is_tag(t: &Option<Token>) -> (r: bool)
    ensures
        r == (opt_view(*t) == Some(TokenView::Tag)),
{
    match t {
        Some(Token::Tag) => true,
        _ => false,
    }
}

/// A cursor over the characters of a configuration text.
pub struct Lexer {
    input: Vec<char>,
    pos: usize,
}

proof fn lemma_skip_ws_bounds(s: Seq<char>, i: int)
    requires
        0 <= i <= s.len(),
    ensures
        i <= skip_ws(s, i) <= s.len(),
        skip_ws(s, i) < s.len() ==> !is_space(s[skip_ws(s, i)]),
    decreases s.len() - i,
{
    if i < s.len() && is_space(s[i]) {
        lemma_skip_ws_bounds(s, i + 1);
    }
}

proof fn lemma_find_stop_bounds(s: Seq<char>, start: int, j: int, q: Option<char>)
    requires
        0 <= j <= s.len(),
    ensures
        j <= find_stop(s, start, j, q) <= s.len(),
    decreases s.len() - j,
{
    if j < s.len() && !(stops(s[j], q) && (j == start || s[j - 1] != ESCAPE)) {
        lemma_find_stop_bounds(s, start, j + 1, q);
    }
}

proof fn lemma_scan_advances(s: Seq<char>, i: int)
    requires
        0 <= i <= s.len(),
    ensures
        scan(s, i).0 is Some ==> i < scan(s, i).1 <= s.len(),
        scan(s, i).0 is None ==> scan(s, i).1 == s.len(),
{
    lemma_skip_ws_bounds(s, i);
    let j = skip_ws(s, i);
    if j < s.len() {
        if s[j] == '\'' || s[j] == '"' {
            lemma_find_stop_bounds(s, j + 1, j + 1, Some(s[j]));
        } else {
            lemma_find_stop_bounds(s, j, j, None);
        }
    }
}

proof fn lemma_next_advances(s: Seq<char>, i: int)
    requires
        0 <= i <= s.len(),
    ensures
        next_spec(s, i).0 is Some ==> i < next_spec(s, i).1 <= s.len(),
        next_spec(s, i).0 is None ==> next_spec(s, i).1 == s.len(),
        next_spec(s, i).0 != Some(TokenView::Tag),
    decreases s.len() - i,
{
    lemma_scan_advances(s, i);
    let (t, k) = scan(s, i);
    if t == Some(TokenView::Tag) && i < k <= s.len() {
        lemma_next_advances(s, k);
    }
}

impl Lexer {
    /// The text being read.
    pub closed spec fn text(&self) -> Seq<char> {
        self.input@
    }

    /// How far the text has been read.
    pub closed spec fn position(&self) -> int {
        self.pos as int
    }

    pub closed spec fn wf(&self) -> bool {
        self.pos <= self.input.len()
    }

    /// A lexer at the start of `input`.
    pub fn new(input: &str) -> (r: Lexer)
        ensures
            r.wf(),
            r.text() == input@,
            r.position() == 0,
    {
        Lexer { input: chars_of(input), pos: 0 }
    }

    fn read_char(&mut self) -> (r: Option<char>)
        requires
            old(self).wf(),
        ensures
            final(self).wf(),
            final(self).text() == old(self).text(),
            old(self).position() < old(self).text().len() ==> r == Some(
                old(self).text()[old(self).position()],
            ) && final(self).position() == old(self).position() + 1,
            old(self).position() >= old(self).text().len() ==> r is None && final(self).position()
                == old(self).position(),
    {
        if self.pos < self.input.len() {
            let c = self.input[self.pos];
            self.pos = self.pos + 1;
            Some(c)
        } else {
            None
        }
    }

    fn peek_char(&self) -> (r: Option<char>)
        requires
            self.wf(),
        ensures
            self.position() < self.text().len() ==> r == Some(self.text()[self.position()]),
            self.position() >= self.text().len() ==> r is None,
    {
        if self.pos < self.input.len() {
            Some(self.input[self.pos])
        } else {
            None
        }
    }

    fn skip_whitespace(&mut self)
        requires
            old(self).wf(),
        ensures
            final(self).wf(),
            final(self).text() == old(self).text(),
            final(self).position() == skip_ws(old(self).text(), old(self).position()),
    {
        while self.pos < self.input.len() && space(self.input[self.pos])
            invariant
                self.wf(),
                self.text() == old(self).text(),
                skip_ws(self.text(), self.position()) == skip_ws(
                    old(self).text(),
                    old(self).position(),
                ),
            decreases self.input.len() - self.pos,
        {
            self.read_char();
        }
    }

    /// Reads characters up to the first unescaped stop character, which is
    /// consumed but not returned.
    fn read_until(&mut self, q: Option<char>) -> (r: (String, bool))
        requires
            old(self).wf(),
        ensures
            final(self).wf(),
            final(self).text() == old(self).text(),
            ({
                let s = old(self).text();
                let i = old(self).position();
                let e = find_stop(s, i, i, q);
                &&& r.0@ == s.subrange(i, e)
                &&& r.1 == (e < s.len())
                &&& final(self).position() == after(s, e)
            }),
    {
        let ghost s = self.text();
        let ghost start = self.position();
        let mut word: Vec<char> = Vec::new();
        let mut prev: char = '\0';
        while self.pos < self.input.len()
            invariant
                self.wf(),
                self.text() == s,
                s == old(self).text(),
                start == old(self).position(),
                0 <= start <= self.position() <= s.len(),
                word@ == s.subrange(start, self.position()),
                self.position() > start ==> prev == s[self.position() - 1],
                self.position() == start ==> prev == '\0',
                find_stop(s, start, start, q) == find_stop(s, start, self.position(), q),
            decreases self.input.len() - self.pos,
        {
            let curr = self.input[self.pos];
            let stop = match q {
                Some(qc) => curr == qc,
                None => space(curr),
            };
            if prev != ESCAPE && stop {
                self.pos = self.pos + 1;
                return (string_of(&word), true);
            }
            proof {
                assert(word@.push(curr) =~= s.subrange(start, self.position() + 1));
            }
            word.push(curr);
            prev = curr;
            self.pos = self.pos + 1;
        }
        (string_of(&word), false)
    }

    fn next_token(&mut self) -> (r: Option<Token>)
        requires
            old(self).wf(),
        ensures
            final(self).wf(),
            final(self).text() == old(self).text(),
            opt_view(r) == scan(old(self).text(), old(self).position()).0,
            final(self).position() == scan(old(self).text(), old(self).position()).1,
    {
        self.skip_whitespace();
        proof {
            lemma_skip_ws_bounds(self.text(), old(self).position());
        }
        match self.peek_char() {
            Some(curr) => {
                if curr == '\'' || curr == '"' {
                    self.read_char();
                    let ghost s = self.text();
                    let ghost p = self.position();
                    proof {
                        lemma_find_stop_bounds(s, p, p, Some(curr));
                    }
                    let (w, closed) = self.read_until(Some(curr));
                    if closed {
                        Some(Token::Ident(w))
                    } else {
                        Some(Token::Unterminated(w))
                    }
                } else if curr == '#' {
                    self.read_until(None);
                    Some(Token::Tag)
                } else {
                    let (w, _) = self.read_until(None);
                    Some(Token::lookup(w.as_str()))
                }
            },
            None => None,
        }
    }

    /// The next token that is not a comment.
    pub fn next(&mut self) -> (r: Option<Token>)
        requires
            old(self).wf(),
        ensures
            final(self).wf(),
            final(self).text() == old(self).text(),
            opt_view(r) == next_spec(old(self).text(), old(self).position()).0,
            final(self).position() == next_spec(old(self).text(), old(self).position()).1,
    {
        proof {
            lemma_scan_advances(self.text(), self.position());
        }
        let mut tok = self.next_token();
        while is_tag(&tok)
            invariant
                self.wf(),
                self.text() == old(self).text(),
                tok is Some ==> 0 <= self.position() <= self.text().len(),
                next_spec(old(self).text(), old(self).position()) == (if opt_view(tok) == Some(
                    TokenView::Tag,
                ) {
                    next_spec(self.text(), self.position())
                } else {
                    (opt_view(tok), self.position() as int)
                }),
            decreases self.text().len() - self.position() + if opt_view(tok) == Some(
                TokenView::Tag,
            ) {
                1int
            } else {
                0int
            },
        {
            proof {
                lemma_scan_advances(self.text(), self.position());
            }
            tok = self.next_token();
        }
        tok
    }

    /// Every remaining token, comments left out.
    pub fn tokenize(&mut self) -> (r: Vec<Token>)
        requires
            old(self).wf(),
        ensures
            final(self).wf(),
            r@.map_values(|t: Token| t@) == tokens_from(old(self).text(), old(self).position()),
    {
        let mut out: Vec<Token> = Vec::new();
        loop
            invariant
                self.wf(),
                self.text() == old(self).text(),
                out@.map_values(|t: Token| t@) + tokens_from(self.text(), self.position())
                    == tokens_from(old(self).text(), old(self).position()),
            decreases self.text().len() - self.position(),
        {
            proof {
                lemma_next_advances(self.text(), self.position());
            }
            let ghost before = out@.map_values(|t: Token| t@);
            let ghost p = self.position();
            match self.next() {
                Some(t) => {
                    proof {
                        assert(tokens_from(self.text(), p) == seq![t@] + tokens_from(
                            self.text(),
                            self.position(),
                        ));
                    }
                    out.push(t);
                    proof {
                        assert(out@.map_values(|t: Token| t@) =~= before.push(t@));
                        assert(before + (seq![t@] + tokens_from(self.text(), self.position()))
                            =~= before.push(t@) + tokens_from(self.text(), self.position()));
                    }
                },
                None => {
                    proof {
                        assert(out@.map_values(|t: Token| t@) =~= before);
                        assert(before + tokens_from(self.text(), p) =~= before);
                    }
                    return out;
                },
            }
        }
    }
}

} // verus!
