//! Tokens of the configuration language.
use vstd::prelude::*;

verus! {

/// One token of a configuration file.
#[derive(Debug, PartialEq, Eq)]
pub enum Token {
    Ident(String),
    Num(usize),
    Path,
    Deps,
    Run,
    Always,
    /// A `#...` comment, which the lexer drops.
    Tag,
    /// A quoted identifier whose closing quote never came.
    Unterminated(String),
}

/// What a token stands for, with its text as a sequence of characters.
pub enum TokenView {
    Ident(Seq<char>),
    Num(usize),
    Path,
    Deps,
    Run,
    Always,
    Tag,
    Unterminated(Seq<char>),
}

impl View for Token {
    type V = TokenView;

    open spec fn view(&self) -> TokenView {
        match self {
            Token::Ident(s) => TokenView::Ident(s@),
            Token::Num(n) => TokenView::Num(*n),
            Token::Path => TokenView::Path,
            Token::Deps => TokenView::Deps,
            Token::Run => TokenView::Run,
            Token::Always => TokenView::Always,
            Token::Tag => TokenView::Tag,
            Token::Unterminated(s) => TokenView::Unterminated(s@),
        }
    }
}

/// The view of an optional token.
pub open spec fn opt_view(o: Option<Token>) -> Option<TokenView> {
    match o {
        Some(t) => Some(t@),
        None => None,
    }
}

/// The character that escapes the next one.
pub const ESCAPE: char = '\\';

pub open spec fn is_digit(c: char) -> bool {
    '0' <= c <= '9'
}

pub open spec fn digit_value(c: char) -> nat {
    (c as u32 - '0' as u32) as nat
}

/// A run of decimal digits, at least one.
pub open spec fn all_digits(w: Seq<char>) -> bool {
    w.len() > 0 && forall|i: int| 0 <= i < w.len() ==> is_digit(#[trigger] w[i])
}

/// The value of a run of decimal digits, most significant first.
pub open spec fn digits_value(w: Seq<char>) -> nat
    decreases w.len(),
{
    if w.len() == 0 {
        0
    } else {
        digits_value(w.drop_last()) * 10 + digit_value(w.last())
    }
}

/// The digits of a numeral: everything after an optional leading `+`.
pub open spec fn numeral_digits(w: Seq<char>) -> Seq<char> {
    if w.len() > 0 && w[0] == '+' {
        w.drop_first()
    } else {
        w
    }
}

/// `w` reads as an unsigned integer that fits in `usize`.
pub open spec fn is_usize_numeral(w: Seq<char>) -> bool {
    all_digits(numeral_digits(w)) && digits_value(numeral_digits(w)) <= usize::MAX
}

/// The keyword that `w` spells, if any.
pub open spec fn keyword_of(w: Seq<char>) -> Option<TokenView> {
    if w == seq!['p', 'a', 't', 'h'] {
        Some(TokenView::Path)
    } else if w == seq!['d', 'e', 'p', 's'] {
        Some(TokenView::Deps)
    } else if w == seq!['r', 'u', 'n'] {
        Some(TokenView::Run)
    } else if w == seq!['a', 'l', 'w', 'a', 'y', 's'] {
        Some(TokenView::Always)
    } else {
        None
    }
}

/// The token that a bare word stands for: a keyword, else a number, else an
/// identifier.
pub open spec fn lookup_spec(w: Seq<char>) -> TokenView {
    match keyword_of(w) {
        Some(k) => k,
        None => if is_usize_numeral(w) {
            TokenView::Num(digits_value(numeral_digits(w)) as usize)
        } else {
            TokenView::Ident(w)
        },
    }
}

proof fn lemma_digits_value_grows(w: Seq<char>, c: char)
    requires
        is_digit(c),
    ensures
        digits_value(w.push(c)) == digits_value(w) * 10 + digit_value(c),
        digits_value(w.push(c)) >= digits_value(w),
{
    assert(w.push(c).drop_last() =~= w);
}

fn spells(w: &Vec<char>, k: &[char]) -> (r: bool)
    ensures
        r == (w@ == k@),
{
    if w.len() != k.len() {
        return false;
    }
    let mut i: usize = 0;
    while i < w.len()
        invariant
            w.len() == k@.len(),
            i <= w.len(),
            forall|j: int| 0 <= j < i ==> w@[j] == k@[j],
        decreases w.len() - i,
    {
        if w[i] != k[i] {
            return false;
        }
        i = i + 1;
    }
    proof {
        assert(w@ =~= k@);
    }
    true
}

/// Reads `w` as an unsigned integer, as `str::parse::<usize>` does: an
/// optional `+`, then at least one decimal digit, with a value that fits.
fn parse_usize(w: &Vec<char>) -> (r: Option<usize>)
    ensures
        r is Some <==> is_usize_numeral(w@),
        r is Some ==> r->0 == digits_value(numeral_digits(w@)),
{
    let start: usize = if w.len() > 0 && w[0] == '+' { 1 } else { 0 };
    let ghost d = numeral_digits(w@);
    assert(d =~= w@.subrange(start as int, w@.len() as int));
    if start >= w.len() {
        return None;
    }
    let mut acc: usize = 0;
    let mut overflow = false;
    let mut i: usize = start;
    while i < w.len()
        invariant
            start <= i <= w.len(),
            d == w@.subrange(start as int, w@.len() as int),
            d == numeral_digits(w@),
            forall|j: int| start <= j < i ==> is_digit(#[trigger] w@[j]),
            overflow ==> digits_value(w@.subrange(start as int, i as int)) > usize::MAX,
            !overflow ==> acc == digits_value(w@.subrange(start as int, i as int)),
        decreases w.len() - i,
    {
        let c = w[i];
        if !('0' <= c && c <= '9') {
            assert(d[i - start] == c);
            assert(!is_digit(d[i - start]));
            assert(!all_digits(d));
            return None;
        }
        let dv = (c as u32 - '0' as u32) as usize;
        proof {
            lemma_digits_value_grows(w@.subrange(start as int, i as int), c);
            assert(w@.subrange(start as int, i as int).push(c) =~= w@.subrange(
                start as int,
                i + 1,
            ));
        }
        if !overflow {
            if acc > (usize::MAX - dv) / 10 {
                overflow = true;
            } else {
                acc = acc * 10 + dv;
            }
        }
        i = i + 1;
    }
    proof {
        assert(w@.subrange(start as int, i as int) =~= d);
        assert forall|j: int| 0 <= j < d.len() implies is_digit(#[trigger] d[j]) by {
            assert(d[j] == w@[j + start]);
        }
    }
    if overflow {
        None
    } else {
        Some(acc)
    }
}

impl Token {
    /// Classifies a bare word: a keyword, else a number that fits in `usize`,
    /// else an identifier.
    pub fn lookup(ident: &str) -> (r: Token)
        ensures
            r@ == lookup_spec(ident@),
    {
        let w = crate::text::chars_of(ident);
        if spells(&w, &['p', 'a', 't', 'h']) {
            return Token::Path;
        }
        if spells(&w, &['d', 'e', 'p', 's']) {
            return Token::Deps;
        }
        if spells(&w, &['r', 'u', 'n']) {
            return Token::Run;
        }
        if spells(&w, &['a', 'l', 'w', 'a', 'y', 's']) {
            return Token::Always;
        }
        match parse_usize(&w) {
            Some(n) => Token::Num(n),
            None => Token::Ident(crate::text::string_of(&w)),
        }
    }
}

} // verus!
