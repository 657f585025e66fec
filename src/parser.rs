//! Placeholder syntax inside configuration strings.
//!
//! A string is read left to right into pieces: literal text up to the next `$`,
//! `$$` for a literal `$`, and `${name(arg)(arg)...}` for a placeholder.
use vstd::prelude::*;
use crate::text::chars_of;

verus! {

/// What `char::is_alphabetic` says of `c` (the Unicode `Alphabetic` property).
pub uninterp spec fn alphabetic(c: char) -> bool;

/// What `char::is_alphanumeric` says of `c` (`Alphabetic` or `Numeric`).
pub uninterp spec fn alphanumeric(c: char) -> bool;

/// Relies on `char::is_alphabetic`.
#[verifier::external_body]
fn is_alphabetic(c: char) -> (r: bool)
    ensures
        r == alphabetic(c),
{
    c.is_alphabetic()
}

/// Relies on `char::is_alphanumeric`.
#[verifier::external_body]
fn is_alphanumeric(c: char) -> (r: bool)
    ensures
        r == alphanumeric(c),
{
    c.is_alphanumeric()
}

/// One piece of a parsed string.
pub enum Piece<'a> {
    /// Literal text.
    Text(&'a str),
    /// A placeholder `${name(args)...}`.
    Argument { name: &'a str, args: Vec<&'a str> },
    /// A syntax error, with its reason.
    Error(&'static str),
}

/// A piece, with its strings seen as character sequences.
pub enum PieceView {
    Text(Seq<char>),
    Argument { name: Seq<char>, args: Seq<Seq<char>> },
    Error(Seq<char>),
}

pub open spec fn str_views<'a>(s: Seq<&'a str>) -> Seq<Seq<char>> {
    s.map_values(|a: &'a str| a@)
}

impl<'a> View for Piece<'a> {
    type V = PieceView;

    open spec fn view(&self) -> PieceView {
        match self {
            Piece::Text(t) => PieceView::Text(t@),
            Piece::Argument { name, args } => PieceView::Argument {
                name: name@,
                args: str_views(args@),
            },
            Piece::Error(e) => PieceView::Error(e@),
        }
    }
}

pub open spec fn missing_open_brace() -> Seq<char> {
    "expected `{`"@
}

pub open spec fn missing_close_brace() -> Seq<char> {
    "expected `}`"@
}

pub open spec fn missing_close_paren() -> Seq<char> {
    "Expected `)`"@
}

/// End of the literal text that starts at `i`: the next `$`, or the end.
pub open spec fn text_end(s: Seq<char>, i: int) -> int
    decreases s.len() - i,
{
    if i < 0 || i >= s.len() || s[i] == '$' {
        i
    } else {
        text_end(s, i + 1)
    }
}

/// End of the run of alphanumeric characters that starts at `i`.
pub open spec fn alnum_end(s: Seq<char>, i: int) -> int
    decreases s.len() - i,
{
    if 0 <= i < s.len() && alphanumeric(s[i]) {
        alnum_end(s, i + 1)
    } else {
        i
    }
}

/// End of the placeholder name that starts at `i`: an alphabetic character
/// followed by alphanumeric ones; `i` itself where there is no name.
pub open spec fn name_end(s: Seq<char>, i: int) -> int {
    if 0 <= i < s.len() && alphabetic(s[i]) {
        alnum_end(s, i + 1)
    } else {
        i
    }
}

/// Position of the first `)` at or after `i`, or the end.
pub open spec fn close_paren(s: Seq<char>, i: int) -> int
    decreases s.len() - i,
{
    if i < 0 || i >= s.len() || s[i] == ')' {
        i
    } else {
        close_paren(s, i + 1)
    }
}

pub proof fn lemma_close_paren_bounds(s: Seq<char>, i: int)
    requires
        0 <= i <= s.len(),
    ensures
        i <= close_paren(s, i) <= s.len(),
        close_paren(s, i) < s.len() ==> s[close_paren(s, i)] == ')',
    decreases s.len() - i,
{
    if i < s.len() && s[i] != ')' {
        lemma_close_paren_bounds(s, i + 1);
    }
}

pub proof fn lemma_text_end_bounds(s: Seq<char>, i: int)
    requires
        0 <= i <= s.len(),
    ensures
        i <= text_end(s, i) <= s.len(),
    decreases s.len() - i,
{
    if i < s.len() && s[i] != '$' {
        lemma_text_end_bounds(s, i + 1);
    }
}

pub proof fn lemma_alnum_end_bounds(s: Seq<char>, i: int)
    requires
        0 <= i <= s.len(),
    ensures
        i <= alnum_end(s, i) <= s.len(),
    decreases s.len() - i,
{
    if i < s.len() && alphanumeric(s[i]) {
        lemma_alnum_end_bounds(s, i + 1);
    }
}

/// The arguments `(a)(b)...` that start at `i`, and the position after them;
/// `None` where an argument has no closing `)`.
pub open spec fn args_at(s: Seq<char>, i: int) -> (Option<Seq<Seq<char>>>, int)
    decreases s.len() - i,
{
    if 0 <= i < s.len() && s[i] == '(' {
        let c = close_paren(s, i + 1);
        proof {
            lemma_close_paren_bounds(s, i + 1);
        }
        if c >= s.len() {
            (None, s.len() as int)
        } else {
            let (rest, p) = args_at(s, c + 1);
            match rest {
                Some(r) => (Some(seq![s.subrange(i + 1, c)] + r), p),
                None => (None, p),
            }
        }
    } else {
        (Some(Seq::empty()), i)
    }
}

/// The placeholder whose `{` should stand at `i` (just after a `$`), and the
/// position after it.
pub open spec fn argument_at(s: Seq<char>, i: int) -> (PieceView, int) {
    if !(0 <= i < s.len() && s[i] == '{') {
        (PieceView::Error(missing_open_brace()), i)
    } else {
        let ne = name_end(s, i + 1);
        let (a, p) = args_at(s, ne);
        match a {
            None => (PieceView::Error(missing_close_paren()), p),
            Some(args) => if 0 <= p < s.len() && s[p] == '}' {
                (PieceView::Argument { name: s.subrange(i + 1, ne), args }, p + 1)
            } else {
                (PieceView::Error(missing_close_brace()), p)
            },
        }
    }
}

/// The piece that starts at `i`, and the position after it; `None` at the end.
pub open spec fn piece_at(s: Seq<char>, i: int) -> Option<(PieceView, int)> {
    if i < 0 || i >= s.len() {
        None
    } else if s[i] == '$' {
        if i + 1 < s.len() && s[i + 1] == '$' {
            Some((PieceView::Text(seq!['$']), i + 2))
        } else {
            Some(argument_at(s, i + 1))
        }
    } else {
        Some((PieceView::Text(s.subrange(i, text_end(s, i))), text_end(s, i)))
    }
}

pub proof fn lemma_args_bounds(s: Seq<char>, i: int)
    requires
        0 <= i <= s.len(),
    ensures
        i <= args_at(s, i).1 <= s.len(),
    decreases s.len() - i,
{
    if i < s.len() && s[i] == '(' {
        lemma_close_paren_bounds(s, i + 1);
        let c = close_paren(s, i + 1);
        if c < s.len() {
            lemma_args_bounds(s, c + 1);
        }
    }
}

/// Each piece moves the position forward and stays within the string.
pub proof fn lemma_piece_advances(s: Seq<char>, i: int)
    requires
        0 <= i < s.len(),
    ensures
        piece_at(s, i) is Some,
        i < (piece_at(s, i)->0).1 <= s.len(),
{
    if s[i] == '$' {
        if !(i + 1 < s.len() && s[i + 1] == '$') && i + 1 < s.len() && s[i + 1] == '{' {
            let ne = name_end(s, i + 2);
            if i + 2 < s.len() && alphabetic(s[i + 2]) {
                lemma_alnum_end_bounds(s, i + 3);
            }
            lemma_args_bounds(s, ne);
        }
    } else {
        lemma_text_end_bounds(s, i + 1);
    }
}

/// Reads the pieces of a string one at a time.
pub struct Parser<'a> {
    pattern: &'a str,
    chars: Vec<char>,
    pos: usize,
}

impl<'a> Parser<'a> {
    /// The characters being parsed.
    pub closed spec fn input(&self) -> Seq<char> {
        self.chars@
    }

    /// The position of the next piece.
    pub closed spec fn position(&self) -> int {
        self.pos as int
    }

    pub closed spec fn wf(&self) -> bool {
        &&& self.chars@ == self.pattern@
        &&& self.pos <= self.chars.len()
    }

    pub fn new(pattern: &'a str) -> (r: Parser<'a>)
        ensures
            r.wf(),
            r.input() == pattern@,
            r.position() == 0,
            r.input().len() >= 0,
    {
        Parser { pattern, chars: chars_of(pattern), pos: 0 }
    }

    fn consume(&mut self, ch: char) -> (r: bool)
        requires
            old(self).wf(),
        ensures
            final(self).wf(),
            final(self).chars@ == old(self).chars@,
            r == (old(self).pos < old(self).chars.len() && old(self).chars@[old(self).pos as int] == ch),
            final(self).pos == if r { old(self).pos + 1 } else { old(self).pos as int },
    {
        if self.pos < self.chars.len() && self.chars[self.pos] == ch {
            self.pos = self.pos + 1;
            true
        } else {
            false
        }
    }

    fn name(&mut self) -> (r: &'a str)
        requires
            old(self).wf(),
        ensures
            final(self).wf(),
            final(self).chars@ == old(self).chars@,
            final(self).pos == name_end(old(self).chars@, old(self).pos as int),
            r@ == old(self).chars@.subrange(old(self).pos as int, final(self).pos as int),
    {
        let ghost s = self.chars@;
        let start = self.pos;
        if !(self.pos < self.chars.len() && is_alphabetic(self.chars[self.pos])) {
            return self.pattern.substring_char(start, start);
        }
        self.pos = self.pos + 1;
        while self.pos < self.chars.len() && is_alphanumeric(self.chars[self.pos])
            invariant
                self.wf(),
                self.chars@ == s,
                start < self.pos <= s.len(),
                alnum_end(s, self.pos as int) == name_end(s, start as int),
            decreases s.len() - self.pos,
        {
            self.pos = self.pos + 1;
        }
        self.pattern.substring_char(start, self.pos)
    }

    fn arg(&mut self) -> (r: Result<Option<&'a str>, &'static str>)
        requires
            old(self).wf(),
        ensures
            final(self).wf(),
            final(self).chars@ == old(self).chars@,
            ({
                let s = old(self).chars@;
                let i = old(self).pos as int;
                if i < s.len() && s[i] == '(' {
                    let c = close_paren(s, i + 1);
                    if c >= s.len() {
                        r == Err::<Option<&'a str>, &'static str>("Expected `)`")
                            && final(self).pos == s.len()
                    } else {
                        r is Ok && r->Ok_0 is Some && r->Ok_0->0@ == s.subrange(i + 1, c)
                            && final(self).pos == c + 1
                    }
                } else {
                    r == Ok::<Option<&'a str>, &'static str>(None) && final(self).pos == i
                }
            }),
    {
        let ghost s = self.chars@;
        if !self.consume('(') {
            return Ok(None);
        }
        let start = self.pos;
        proof {
            lemma_close_paren_bounds(s, start as int);
        }
        while self.pos < self.chars.len() && self.chars[self.pos] != ')'
            invariant
                self.wf(),
                self.chars@ == s,
                start <= self.pos <= s.len(),
                close_paren(s, self.pos as int) == close_paren(s, start as int),
            decreases s.len() - self.pos,
        {
            self.pos = self.pos + 1;
        }
        if self.pos >= self.chars.len() {
            return Err("Expected `)`");
        }
        let a = self.pattern.substring_char(start, self.pos);
        self.pos = self.pos + 1;
        Ok(Some(a))
    }

    fn args(&mut self) -> (r: Result<Vec<&'a str>, &'static str>)
        requires
            old(self).wf(),
        ensures
            final(self).wf(),
            final(self).chars@ == old(self).chars@,
            final(self).pos == args_at(old(self).chars@, old(self).pos as int).1,
            match args_at(old(self).chars@, old(self).pos as int).0 {
                Some(a) => r is Ok && str_views(r->Ok_0@) == a,
                None => r == Err::<Vec<&'a str>, &'static str>("Expected `)`"),
            },
    {
        let ghost s = self.chars@;
        let ghost start = self.pos as int;
        let mut args: Vec<&'a str> = Vec::new();
        loop
            invariant
                self.wf(),
                self.chars@ == s,
                s == old(self).chars@,
                start == old(self).pos,
                args_at(s, self.pos as int).1 == args_at(s, start).1,
                match args_at(s, self.pos as int).0 {
                    Some(rest) => args_at(s, start).0 == Some(str_views(args@) + rest),
                    None => args_at(s, start).0 is None,
                },
            decreases s.len() - self.pos,
        {
            proof {
                if self.pos < s.len() {
                    lemma_close_paren_bounds(s, self.pos as int + 1);
                }
            }
            match self.arg() {
                Err(e) => {
                    return Err(e);
                },
                Ok(None) => {
                    proof {
                        assert(str_views(args@) + Seq::<Seq<char>>::empty() =~= str_views(args@));
                    }
                    return Ok(args);
                },
                Ok(Some(a)) => {
                    let ghost before = args@;
                    args.push(a);
                    proof {
                        let (rest, _) = args_at(s, self.pos as int);
                        assert(str_views(args@) =~= str_views(before).push(a@));
                        if let Some(r) = rest {
                            assert(str_views(before) + (seq![a@] + r) =~= str_views(args@) + r);
                        }
                    }
                },
            }
        }
    }

    fn argument(&mut self) -> (r: Piece<'a>)
        requires
            old(self).wf(),
        ensures
            final(self).wf(),
            final(self).chars@ == old(self).chars@,
            (r@, final(self).pos as int) == argument_at(old(self).chars@, old(self).pos as int),
    {
        if !self.consume('{') {
            return Piece::Error("expected `{`");
        }
        let name = self.name();
        let args = match self.args() {
            Ok(args) => args,
            Err(e) => {
                return Piece::Error(e);
            },
        };
        if !self.consume('}') {
            return Piece::Error("expected `}`");
        }
        Piece::Argument { name, args }
    }

    fn text(&mut self) -> (r: Piece<'a>)
        requires
            old(self).wf(),
        ensures
            final(self).wf(),
            final(self).chars@ == old(self).chars@,
            final(self).pos == text_end(old(self).chars@, old(self).pos as int),
            r@ == PieceView::Text(
                old(self).chars@.subrange(old(self).pos as int, final(self).pos as int),
            ),
    {
        let ghost s = self.chars@;
        let start = self.pos;
        while self.pos < self.chars.len() && self.chars[self.pos] != '$'
            invariant
                self.wf(),
                self.chars@ == s,
                start <= self.pos <= s.len(),
                text_end(s, self.pos as int) == text_end(s, start as int),
            decreases s.len() - self.pos,
        {
            self.pos = self.pos + 1;
        }
        Piece::Text(self.pattern.substring_char(start, self.pos))
    }

    /// The next piece, or `None` at the end of the string.
    pub fn next(&mut self) -> (r: Option<Piece<'a>>)
        requires
            old(self).wf(),
        ensures
            final(self).wf(),
            final(self).input() == old(self).input(),
            0 <= final(self).position() <= final(self).input().len(),
            match piece_at(old(self).input(), old(self).position()) {
                None => r is None && final(self).position() == old(self).position(),
                Some((p, e)) => r is Some && r->0@ == p && final(self).position() == e,
            },
    {
        if self.pos >= self.chars.len() {
            return None;
        }
        if self.chars[self.pos] == '$' {
            self.pos = self.pos + 1;
            if self.pos < self.chars.len() && self.chars[self.pos] == '$' {
                let t = self.pattern.substring_char(self.pos, self.pos + 1);
                self.pos = self.pos + 1;
                proof {
                    assert(t@ =~= seq!['$']);
                }
                return Some(Piece::Text(t));
            }
            return Some(self.argument());
        }
        Some(self.text())
    }
}

} // verus!
