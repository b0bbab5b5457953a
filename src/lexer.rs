//! The lexer of the assertions that litmus tests make about final states.
//! Positions count characters.
use vstd::prelude::*;
use vstd::string::StrSliceExecFns;

verus! {

/// The tokens of the assertion language.
#[derive(Debug)]
pub enum Tok {
    Nat(String),
    Id(String),
    Hex(String),
    Bin(String),
    Implies,
    Not,
    And,
    Or,
    Lparen,
    Rparen,
    Colon,
    Eq,
    Star,
    Comma,
    True,
    False,
}

/// The mathematical form of a token: its kind, and the text of a name or
/// number.
pub enum TokView {
    Nat(Seq<char>),
    Id(Seq<char>),
    Hex(Seq<char>),
    Bin(Seq<char>),
    Implies,
    Not,
    And,
    Or,
    Lparen,
    Rparen,
    Colon,
    Eq,
    Star,
    Comma,
    True,
    False,
}

impl View for Tok {
    type V = TokView;

    open spec fn view(&self) -> TokView {
        match self {
            Tok::Nat(s) => TokView::Nat(s@),
            Tok::Id(s) => TokView::Id(s@),
            Tok::Hex(s) => TokView::Hex(s@),
            Tok::Bin(s) => TokView::Bin(s@),
            Tok::Implies => TokView::Implies,
            Tok::Not => TokView::Not,
            Tok::And => TokView::And,
            Tok::Or => TokView::Or,
            Tok::Lparen => TokView::Lparen,
            Tok::Rparen => TokView::Rparen,
            Tok::Colon => TokView::Colon,
            Tok::Eq => TokView::Eq,
            Tok::Star => TokView::Star,
            Tok::Comma => TokView::Comma,
            Tok::True => TokView::True,
            Tok::False => TokView::False,
        }
    }
}

impl Tok {
    /// A copy of the token.
    pub fn copy(&self) -> (r: Tok)
        ensures
            r@ == self@,
    {
        match self {
            Tok::Nat(s) => Tok::Nat(s.clone()),
            Tok::Id(s) => Tok::Id(s.clone()),
            Tok::Hex(s) => Tok::Hex(s.clone()),
            Tok::Bin(s) => Tok::Bin(s.clone()),
            Tok::Implies => Tok::Implies,
            Tok::Not => Tok::Not,
            Tok::And => Tok::And,
            Tok::Or => Tok::Or,
            Tok::Lparen => Tok::Lparen,
            Tok::Rparen => Tok::Rparen,
            Tok::Colon => Tok::Colon,
            Tok::Eq => Tok::Eq,
            Tok::Star => Tok::Star,
            Tok::Comma => Tok::Comma,
            Tok::True => Tok::True,
            Tok::False => Tok::False,
        }
    }
}

/// A keyword or symbol, the token it stands for, and its length.
#[derive(Debug)]
pub struct Keyword {
    pub word: &'static str,
    pub token: Tok,
    pub len: usize,
}

impl Keyword {
    /// The keyword `kw` for the token `tok`.
    pub fn new(kw: &'static str, tok: Tok) -> (k: Keyword)
        ensures
            k.word@ == kw@,
            k.token@ == tok@,
            k.len == kw@.len(),
    {
        let len = kw.unicode_len();
        Keyword { word: kw, token: tok, len }
    }
}

/// The keywords and symbols, tried in this order.
pub open spec fn keyword_table() -> Seq<(Seq<char>, TokView)> {
    seq![
        ("->"@, TokView::Implies),
        ("~"@, TokView::Not),
        ("&"@, TokView::And),
        ("|"@, TokView::Or),
        ("("@, TokView::Lparen),
        (")"@, TokView::Rparen),
        (":"@, TokView::Colon),
        ("="@, TokView::Eq),
        ("*"@, TokView::Star),
        (","@, TokView::Comma),
        ("true"@, TokView::True),
        ("false"@, TokView::False),
    ]
}

/// The keyword table.
pub fn keywords() -> (r: Vec<Keyword>)
    ensures
        r@.len() == keyword_table().len(),
        forall|k: int|
            0 <= k < r@.len() ==> (#[trigger] r@[k]).word@ == keyword_table()[k].0 && r@[k].token@
                == keyword_table()[k].1 && r@[k].len == keyword_table()[k].0.len(),
{
    let mut table: Vec<Keyword> = Vec::new();
    table.push(Keyword::new("->", Tok::Implies));
    table.push(Keyword::new("~", Tok::Not));
    table.push(Keyword::new("&", Tok::And));
    table.push(Keyword::new("|", Tok::Or));
    table.push(Keyword::new("(", Tok::Lparen));
    table.push(Keyword::new(")", Tok::Rparen));
    table.push(Keyword::new(":", Tok::Colon));
    table.push(Keyword::new("=", Tok::Eq));
    table.push(Keyword::new("*", Tok::Star));
    table.push(Keyword::new(",", Tok::Comma));
    table.push(Keyword::new("true", Tok::True));
    table.push(Keyword::new("false", Tok::False));
    table
}

/// Whitespace between tokens.
pub open spec fn is_ws(c: char) -> bool {
    c == ' ' || c == '\t' || c == '\n' || c == '\r' || c == '\x0B' || c == '\x0C'
}

/// The classes of characters that names and numbers are made of: 0 for
/// name characters, 1 for hexadecimal digits, 2 for binary digits, 3 for
/// decimal digits.
pub open spec fn in_class(class: int, c: char) -> bool {
    if class == 0 {
        ('a' <= c && c <= 'z') || ('A' <= c && c <= 'Z') || ('0' <= c && c <= '9') || c == '_'
    } else if class == 1 {
        ('0' <= c && c <= '9') || ('a' <= c && c <= 'f') || ('A' <= c && c <= 'F')
    } else if class == 2 {
        c == '0' || c == '1'
    } else {
        '0' <= c && c <= '9'
    }
}

/// The first position from `p` on that is not whitespace.
pub open spec fn skip_ws(s: Seq<char>, p: int) -> int
    decreases s.len() - p,
{
    if 0 <= p < s.len() && is_ws(s[p]) {
        skip_ws(s, p + 1)
    } else {
        p
    }
}

/// The first position from `p` on whose character is not of `class`.
pub open spec fn run_end(s: Seq<char>, p: int, class: int) -> int
    decreases s.len() - p,
{
    if 0 <= p < s.len() && in_class(class, s[p]) {
        run_end(s, p + 1, class)
    } else {
        p
    }
}

/// Whether `w` occurs in `s` at `p`.
pub open spec fn starts_with(s: Seq<char>, p: int, w: Seq<char>) -> bool {
    0 <= p && p + w.len() <= s.len() && s.subrange(p, p + w.len()) == w
}

/// The first keyword from entry `k` of the table on that occurs at `p`.
pub open spec fn first_keyword(s: Seq<char>, p: int, k: int) -> Option<int>
    decreases keyword_table().len() - k,
{
    if k < 0 || k >= keyword_table().len() {
        None
    } else if starts_with(s, p, keyword_table()[k].0) {
        Some(k)
    } else {
        first_keyword(s, p, k + 1)
    }
}

/// The end of a name at `p`: a letter or underscore, then name characters.
pub open spec fn id_end(s: Seq<char>, p: int) -> int {
    if 0 <= p < s.len() && in_class(0, s[p]) && !('0' <= s[p] && s[p] <= '9') {
        run_end(s, p + 1, 0)
    } else {
        p
    }
}

/// The end of a number with a two-character prefix (`0x`/`#x` when
/// `class` is 1, `0b`/`#b` when it is 2) at `p`.
pub open spec fn prefixed_end(s: Seq<char>, p: int, class: int) -> int {
    if 0 <= p && p + 2 < s.len() && (s[p] == '0' || s[p] == '#') && s[p + 1] == (if class == 1 {
        'x'
    } else {
        'b'
    }) && in_class(class, s[p + 2]) {
        run_end(s, p + 3, class)
    } else {
        p
    }
}

/// The end of a decimal number at `p`.
pub open spec fn nat_end(s: Seq<char>, p: int) -> int {
    if 0 <= p < s.len() && in_class(3, s[p]) {
        run_end(s, p + 1, 3)
    } else {
        p
    }
}

/// The next token of `s` from `p` on: whitespace is skipped; then the first
/// keyword of the table that occurs, else a name, a hexadecimal, binary or
/// decimal number, else an error at that position. None at the end.
pub open spec fn lex_at(s: Seq<char>, p: int) -> Option<Result<(int, TokView, int), int>> {
    let a = skip_ws(s, p);
    if a >= s.len() {
        None
    } else {
        match first_keyword(s, a, 0) {
            Some(k) => Some(Ok((a, keyword_table()[k].1, a + keyword_table()[k].0.len()))),
            None => if id_end(s, a) > a {
                Some(Ok((a, TokView::Id(s.subrange(a, id_end(s, a))), id_end(s, a))))
            } else if prefixed_end(s, a, 1) > a {
                Some(Ok((a, TokView::Hex(s.subrange(a, prefixed_end(s, a, 1))), prefixed_end(s, a, 1))))
            } else if prefixed_end(s, a, 2) > a {
                Some(Ok((a, TokView::Bin(s.subrange(a, prefixed_end(s, a, 2))), prefixed_end(s, a, 2))))
            } else if nat_end(s, a) > a {
                Some(Ok((a, TokView::Nat(s.subrange(a, nat_end(s, a))), nat_end(s, a))))
            } else {
                Some(Err(a))
            },
        }
    }
}

/// A character that starts no token.
#[derive(Debug, PartialEq, Eq, Clone, Copy, Structural)]
pub struct LexError {
    pub pos: usize,
}

/// The lexer: the characters of the input and the position reached.
#[derive(Debug)]
pub struct ExpLexer {
    pub chars: Vec<char>,
    pub pos: usize,
}

fn char_in_class(class: u8, c: char) -> (b: bool)
    ensures
        b == in_class(class as int, c),
{
    if class == 0 {
        ('a' <= c && c <= 'z') || ('A' <= c && c <= 'Z') || ('0' <= c && c <= '9') || c == '_'
    } else if class == 1 {
        ('0' <= c && c <= '9') || ('a' <= c && c <= 'f') || ('A' <= c && c <= 'F')
    } else if class == 2 {
        c == '0' || c == '1'
    } else {
        '0' <= c && c <= '9'
    }
}

fn scan(chars: &Vec<char>, p: usize, class: u8) -> (q: usize)
    requires
        p <= chars@.len(),
    ensures
        q == run_end(chars@, p as int, class as int),
        p <= q <= chars@.len(),
    decreases chars@.len() - p,
{
    if p < chars.len() && char_in_class(class, chars[p]) {
        scan(chars, p + 1, class)
    } else {
        p
    }
}

fn text(chars: &Vec<char>, from: usize, to: usize) -> (r: String)
    requires
        from <= to <= chars@.len(),
    ensures
        r@ == chars@.subrange(from as int, to as int),
{
    let mut r = String::new();
    let mut i: usize = from;
    while i < to
        invariant
            from <= i <= to <= chars@.len(),
            r@ == chars@.subrange(from as int, i as int),
        decreases to - i,
    {
        let mut one = String::new();
        push_char(&mut one, chars[i]);
        vstd::string::StringExecFns::append(&mut r, one.as_str());
        i += 1;
        assert(r@ =~= chars@.subrange(from as int, i as int));
    }
    r
}

/// Relies on `String::push`: the character is appended.
#[verifier::external_body]
fn push_char(s: &mut String, c: char)
    ensures
        final(s)@ == old(s)@.push(c),
{
    s.push(c)
}

fn at_word(chars: &Vec<char>, p: usize, word: &str) -> (b: bool)
    requires
        p <= chars@.len(),
    ensures
        b == starts_with(chars@, p as int, word@),
{
    let n = word.unicode_len();
    let len = chars.len();
    if n > len - p {
        return false;
    }
    let mut i: usize = 0;
    while i < n
        invariant
            len == chars@.len(),
            n == word@.len(),
            p + n <= chars@.len(),
            i <= n,
            forall|j: int| 0 <= j < i ==> chars@[p + j] == word@[j],
        decreases n - i,
    {
        if chars[p + i] != word.get_char(i) {
            assert(chars@.subrange(p as int, p + n)[i as int] != word@[i as int]);
            return false;
        }
        i += 1;
    }
    assert(chars@.subrange(p as int, p + n) =~= word@);
    true
}

impl ExpLexer {
    /// A lexer at the start of `input`.
    pub fn new(input: &str) -> (l: ExpLexer)
        ensures
            l.chars@ == input@,
            l.pos == 0,
    {
        let n = input.unicode_len();
        let mut chars: Vec<char> = Vec::new();
        let mut i: usize = 0;
        while i < n
            invariant
                n == input@.len(),
                i <= n,
                chars@ == input@.subrange(0, i as int),
            decreases n - i,
        {
            chars.push(input.get_char(i));
            i += 1;
            assert(chars@ =~= input@.subrange(0, i as int));
        }
        assert(input@.subrange(0, n as int) =~= input@);
        ExpLexer { chars, pos: 0 }
    }

    /// The next token with its start and end, or the position of a character
    /// that starts none; none at the end of the input.
    pub fn next_token(&mut self) -> (r: Option<Result<(usize, Tok, usize), LexError>>)
        requires
            old(self).pos <= old(self).chars@.len(),
        ensures
            final(self).chars@ == old(self).chars@,
            final(self).pos <= final(self).chars@.len(),
            match lex_at(old(self).chars@, old(self).pos as int) {
                None => r is None,
                Some(Ok((a, t, b))) => final(self).pos == b && match r {
                    Some(Ok((a2, t2, b2))) => a2 == a && t2@ == t && b2 == b,
                    _ => false,
                },
                Some(Err(a)) => final(self).pos == a && r == Some(
                    Err::<(usize, Tok, usize), LexError>(LexError { pos: a as usize }),
                ),
            },
    {
        let ghost s = self.chars@;
        let ghost p0 = self.pos as int;
        while self.pos < self.chars.len() && (self.chars[self.pos] == ' ' || self.chars[self.pos] == '\t'
            || self.chars[self.pos] == '\n' || self.chars[self.pos] == '\r' || self.chars[self.pos] == '\x0B'
            || self.chars[self.pos] == '\x0C')
            invariant
                self.chars@ == s,
                s == old(self).chars@,
                p0 <= self.pos <= s.len(),
                skip_ws(s, p0) == skip_ws(s, self.pos as int),
            decreases s.len() - self.pos,
        {
            self.pos = self.pos + 1;
        }
        let a = self.pos;
        if a >= self.chars.len() {
            return None;
        }
        let table = keywords();
        let len = self.chars.len();
        let mut k: usize = 0;
        while k < table.len()
            invariant
                self.chars@ == s,
                s == old(self).chars@,
                p0 == old(self).pos as int,
                len == s.len(),
                self.pos == a,
                a < s.len(),
                a == skip_ws(s, p0),
                table@.len() == keyword_table().len(),
                forall|j: int|
                    0 <= j < table@.len() ==> (#[trigger] table@[j]).word@ == keyword_table()[j].0
                        && table@[j].token@ == keyword_table()[j].1 && table@[j].len
                        == keyword_table()[j].0.len(),
                k <= table@.len(),
                first_keyword(s, a as int, 0) == first_keyword(s, a as int, k as int),
            decreases table@.len() - k,
        {
            let kw = &table[k];
            if at_word(&self.chars, a, kw.word) {
                assert(kw.len == kw.word@.len());
                assert(starts_with(s, a as int, keyword_table()[k as int].0));
                assert(first_keyword(s, a as int, k as int) == Some(k as int));
                self.pos = a + kw.len;
                return Some(Ok((a, kw.token.copy(), a + kw.len)));
            }
            k += 1;
        }
        let id = if char_in_class(0, self.chars[a]) && !('0' <= self.chars[a] && self.chars[a] <= '9') {
            scan(&self.chars, a + 1, 0)
        } else {
            a
        };
        if id > a {
            self.pos = id;
            return Some(Ok((a, Tok::Id(text(&self.chars, a, id)), id)));
        }
        let hex = self.prefixed(a, 1);
        if hex > a {
            self.pos = hex;
            return Some(Ok((a, Tok::Hex(text(&self.chars, a, hex)), hex)));
        }
        let bin = self.prefixed(a, 2);
        if bin > a {
            self.pos = bin;
            return Some(Ok((a, Tok::Bin(text(&self.chars, a, bin)), bin)));
        }
        let digits = if char_in_class(3, self.chars[a]) {
            scan(&self.chars, a + 1, 3)
        } else {
            a
        };
        if digits > a {
            self.pos = digits;
            return Some(Ok((a, Tok::Nat(text(&self.chars, a, digits)), digits)));
        }
        Some(Err(LexError { pos: a }))
    }

    fn prefixed(&self, p: usize, class: u8) -> (q: usize)
        requires
            p < self.chars@.len(),
            class == 1 || class == 2,
        ensures
            q == prefixed_end(self.chars@, p as int, class as int),
            p <= q <= self.chars@.len(),
    {
        let marker = if class == 1 { 'x' } else { 'b' };
        if self.chars.len() - p > 2 && (self.chars[p] == '0' || self.chars[p] == '#') && self.chars[p + 1]
            == marker && char_in_class(class, self.chars[p + 2]) {
            scan(&self.chars, p + 3, class)
        } else {
            p
        }
    }
}

} // verus!
