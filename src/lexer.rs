//! The tokenizer: a forward-only cursor over the characters of a text.
use vstd::prelude::*;

verus! {

/// One lexical unit of the language.
#[derive(Debug, PartialEq)]
pub enum Token {
    // Operators
    ADD,
    SUB,
    MULT,
    DIV,
    BANG,
    AND,
    OR,
    // Literals: the characters of the run, kept uninterpreted
    INT(String),
    ALPHA(String),
    // Delimiters
    LBRACKET,
    RBRACKET,
    LBRACE,
    RBRACE,
    BACKTICK,
    // Special
    COLON,
    END,
}

/// The mathematical form of a token: literals carry their characters.
pub enum Lexeme {
    Add,
    Sub,
    Mult,
    Div,
    Bang,
    And,
    Or,
    Int(Seq<char>),
    Alpha(Seq<char>),
    LBracket,
    RBracket,
    LBrace,
    RBrace,
    Backtick,
    Colon,
    End,
}

impl View for Token {
    type V = Lexeme;

    open spec fn view(&self) -> Lexeme {
        match self {
            Token::ADD => Lexeme::Add,
            Token::SUB => Lexeme::Sub,
            Token::MULT => Lexeme::Mult,
            Token::DIV => Lexeme::Div,
            Token::BANG => Lexeme::Bang,
            Token::AND => Lexeme::And,
            Token::OR => Lexeme::Or,
            Token::INT(s) => Lexeme::Int(s@),
            Token::ALPHA(s) => Lexeme::Alpha(s@),
            Token::LBRACKET => Lexeme::LBracket,
            Token::RBRACKET => Lexeme::RBracket,
            Token::LBRACE => Lexeme::LBrace,
            Token::RBRACE => Lexeme::RBrace,
            Token::BACKTICK => Lexeme::Backtick,
            Token::COLON => Lexeme::Colon,
            Token::END => Lexeme::End,
        }
    }
}

/// A character that starts no token: the character and the line it is on.
#[derive(Debug, PartialEq, Eq, Clone, Copy, Structural)]
pub struct LexError {
    pub ch: char,
    pub line: usize,
}

/// The characters with the Unicode `White_Space` property.
pub open spec fn white_space(c: char) -> bool {
    ('\u{9}' <= c && c <= '\u{d}') || c == ' ' || c == '\u{85}' || c == '\u{a0}' || c == '\u{1680}'
        || ('\u{2000}' <= c && c <= '\u{200a}') || c == '\u{2028}' || c == '\u{2029}' || c
        == '\u{202f}' || c == '\u{205f}' || c == '\u{3000}'
}

/// Whether `c` has the Unicode `Alphabetic` property.
pub uninterp spec fn alphabetic(c: char) -> bool;

/// A character that can stand in an alphabetic run: an ASCII letter, or
/// beyond ASCII a character with the `Alphabetic` property (which no
/// whitespace character has).
pub open spec fn letter(c: char) -> bool {
    if c <= '\x7f' {
        ('a' <= c && c <= 'z') || ('A' <= c && c <= 'Z')
    } else {
        alphabetic(c) && !white_space(c)
    }
}

/// A decimal digit.
pub open spec fn decimal_digit(c: char) -> bool {
    '0' <= c && c <= '9'
}

/// The token of a one-character operator or delimiter.
pub open spec fn symbol(c: char) -> Option<Lexeme> {
    if c == '+' {
        Some(Lexeme::Add)
    } else if c == '-' {
        Some(Lexeme::Sub)
    } else if c == '*' {
        Some(Lexeme::Mult)
    } else if c == '\\' {
        Some(Lexeme::Div)
    } else if c == '!' {
        Some(Lexeme::Bang)
    } else if c == '&' {
        Some(Lexeme::And)
    } else if c == '|' {
        Some(Lexeme::Or)
    } else if c == '(' {
        Some(Lexeme::LBracket)
    } else if c == ')' {
        Some(Lexeme::RBracket)
    } else if c == '{' {
        Some(Lexeme::LBrace)
    } else if c == '}' {
        Some(Lexeme::RBrace)
    } else if c == '`' {
        Some(Lexeme::Backtick)
    } else if c == ':' {
        Some(Lexeme::Colon)
    } else {
        None
    }
}

/// The end of the run of whitespace in `s` that starts at `i`.
pub open spec fn white_end(s: Seq<char>, i: int) -> int
    decreases s.len() - i,
{
    if 0 <= i < s.len() && white_space(s[i]) {
        white_end(s, i + 1)
    } else {
        i
    }
}

/// The end of the run of decimal digits in `s` that starts at `i`.
pub open spec fn digit_end(s: Seq<char>, i: int) -> int
    decreases s.len() - i,
{
    if 0 <= i < s.len() && decimal_digit(s[i]) {
        digit_end(s, i + 1)
    } else {
        i
    }
}

/// The end of the run of alphabetic characters in `s` that starts at `i`.
pub open spec fn alpha_end(s: Seq<char>, i: int) -> int
    decreases s.len() - i,
{
    if 0 <= i < s.len() && letter(s[i]) {
        alpha_end(s, i + 1)
    } else {
        i
    }
}

/// The number of line feeds in `s`.
pub open spec fn newlines(s: Seq<char>) -> nat
    decreases s.len(),
{
    if s.len() == 0 {
        0
    } else {
        newlines(s.drop_last()) + if s.last() == '\n' {
            1nat
        } else {
            0nat
        }
    }
}

/// The line that follows the characters `read`: one more than the line
/// feeds among them, held at `usize::MAX`.
pub open spec fn line_after(read: Seq<char>) -> int {
    if 1 + newlines(read) < usize::MAX {
        1 + newlines(read) as int
    } else {
        usize::MAX as int
    }
}

/// The token of `s` that follows position `i`, after any whitespace, with
/// the position just past it; or the position of a character that starts
/// no token.
pub open spec fn next_lexeme(s: Seq<char>, i: int) -> Result<(Lexeme, int), int> {
    let j = white_end(s, i);
    if j >= s.len() {
        Ok((Lexeme::End, j))
    } else if decimal_digit(s[j]) {
        Ok((Lexeme::Int(s.subrange(j, digit_end(s, j))), digit_end(s, j)))
    } else if letter(s[j]) {
        Ok((Lexeme::Alpha(s.subrange(j, alpha_end(s, j))), alpha_end(s, j)))
    } else {
        match symbol(s[j]) {
            Some(t) => Ok((t, j + 1)),
            None => Err(j),
        }
    }
}

/// Reading one more character adds a line feed to the count only if it is
/// one.
proof fn lemma_line_step(s: Seq<char>, p: int)
    requires
        0 <= p < s.len(),
    ensures
        newlines(s.take(p + 1)) == newlines(s.take(p)) + if s[p] == '\n' {
            1nat
        } else {
            0nat
        },
        s[p] != '\n' ==> line_after(s.take(p + 1)) == line_after(s.take(p)),
{
    assert(s.take(p + 1).drop_last() =~= s.take(p));
}

/// `s` with the character `w` inserted at position `k`.
pub open spec fn insert_at(s: Seq<char>, k: int, w: char) -> Seq<char> {
    s.take(k) + seq![w] + s.skip(k)
}

/// Whether position `k` of `s` lies inside a run of digits or of letters.
pub open spec fn inside_run(s: Seq<char>, k: int) -> bool {
    0 < k < s.len() && ((decimal_digit(s[k - 1]) && decimal_digit(s[k])) || (letter(s[k - 1])
        && letter(s[k])))
}

/// A scan result moved one position to the right.
pub open spec fn shifted(r: Result<(Lexeme, int), int>) -> Result<(Lexeme, int), int> {
    match r {
        Ok((t, e)) => Ok((t, e + 1)),
        Err(j) => Err(j + 1),
    }
}

proof fn lemma_insert_index(s: Seq<char>, k: int, w: char)
    requires
        0 <= k <= s.len(),
    ensures
        insert_at(s, k, w).len() == s.len() + 1,
        insert_at(s, k, w)[k] == w,
        forall|i: int| 0 <= i < k ==> #[trigger] insert_at(s, k, w)[i] == s[i],
        forall|i: int| k <= i < s.len() ==> #[trigger] insert_at(s, k, w)[i + 1] == s[i],
{
}

proof fn lemma_ends_after(s: Seq<char>, k: int, w: char, i: int)
    requires
        0 <= k <= i <= s.len(),
    ensures
        white_end(insert_at(s, k, w), i + 1) == white_end(s, i) + 1,
        digit_end(insert_at(s, k, w), i + 1) == digit_end(s, i) + 1,
        alpha_end(insert_at(s, k, w), i + 1) == alpha_end(s, i) + 1,
    decreases s.len() - i,
{
    lemma_insert_index(s, k, w);
    if i < s.len() {
        lemma_ends_after(s, k, w, i + 1);
        assert(insert_at(s, k, w)[i + 1] == s[i]);
    }
}

proof fn lemma_next_after(s: Seq<char>, k: int, w: char, i: int)
    requires
        0 <= k <= i <= s.len(),
    ensures
        next_lexeme(insert_at(s, k, w), i + 1) == shifted(next_lexeme(s, i)),
{
    let s2 = insert_at(s, k, w);
    lemma_insert_index(s, k, w);
    lemma_ends_after(s, k, w, i);
    lemma_white_end(s, i);
    let j = white_end(s, i);
    if j < s.len() {
        lemma_ends_after(s, k, w, j);
        lemma_digit_end(s, j);
        lemma_alpha_end(s, j);
        assert(s2[j + 1] == s[j]);
        let d = digit_end(s, j);
        let a = alpha_end(s, j);
        assert(s2.subrange(j + 1, d + 1) =~= s.subrange(j, d));
        assert(s2.subrange(j + 1, a + 1) =~= s.subrange(j, a));
    }
}

proof fn lemma_ends_before(s: Seq<char>, k: int, w: char, i: int)
    requires
        0 <= i <= k <= s.len(),
        white_space(w),
    ensures
        white_end(s, i) < k ==> white_end(insert_at(s, k, w), i) == white_end(s, i),
        white_end(s, i) >= k ==> white_end(insert_at(s, k, w), i) == white_end(s, i) + 1,
        digit_end(s, i) <= k ==> digit_end(insert_at(s, k, w), i) == digit_end(s, i),
        alpha_end(s, i) <= k ==> alpha_end(insert_at(s, k, w), i) == alpha_end(s, i),
    decreases k - i,
{
    let s2 = insert_at(s, k, w);
    lemma_insert_index(s, k, w);
    lemma_white_end(s, i);
    lemma_digit_end(s, i);
    lemma_alpha_end(s, i);
    if i < k {
        lemma_ends_before(s, k, w, i + 1);
        assert(s2[i] == s[i]);
    } else {
        lemma_ends_after(s, k, w, k);
        assert(s2[k] == w);
    }
}

proof fn lemma_next_before(s: Seq<char>, k: int, w: char, i: int)
    requires
        0 <= i <= k <= s.len(),
        white_space(w),
        !inside_run(s, k),
    ensures
        white_end(s, i) < k ==> next_lexeme(insert_at(s, k, w), i) == next_lexeme(s, i)
            && (next_lexeme(s, i) matches Ok((_, e)) ==> e <= k),
        white_end(s, i) >= k ==> next_lexeme(insert_at(s, k, w), i) == shifted(next_lexeme(s, i)),
{
    let s2 = insert_at(s, k, w);
    lemma_insert_index(s, k, w);
    lemma_ends_before(s, k, w, i);
    lemma_white_end(s, i);
    let j = white_end(s, i);
    if j < k {
        lemma_ends_before(s, k, w, j);
        lemma_digit_end(s, j);
        lemma_alpha_end(s, j);
        assert(s2[j] == s[j]);
        let d = digit_end(s, j);
        let a = alpha_end(s, j);
        if d > k {
            assert(decimal_digit(s[k - 1]) && decimal_digit(s[k]));
        }
        if a > k {
            assert(letter(s[k - 1]) && letter(s[k]));
        }
        if d <= k {
            assert(s2.subrange(j, d) =~= s.subrange(j, d));
        }
        if a <= k {
            assert(s2.subrange(j, a) =~= s.subrange(j, a));
        }
    } else {
        lemma_ends_before(s, k, w, k);
        lemma_next_after(s, k, w, k);
        lemma_white_end(s, k);
        assert(white_end(s, i) == white_end(s, k)) by {
            lemma_white_end_skip(s, i, k);
        }
    }
}

proof fn lemma_white_end_skip(s: Seq<char>, i: int, k: int)
    requires
        0 <= i <= k <= white_end(s, i),
    ensures
        white_end(s, i) == white_end(s, k),
    decreases k - i,
{
    if i < k {
        lemma_white_end_skip(s, i + 1, k);
    }
}

proof fn lemma_lexemes_after(s: Seq<char>, k: int, w: char, i: int)
    requires
        0 <= k <= i <= s.len(),
    ensures
        lexemes_from(insert_at(s, k, w), i + 1) == match lexemes_from(s, i) {
            Ok(ts) => Ok::<Seq<Lexeme>, int>(ts),
            Err(j) => Err(j + 1),
        },
    decreases s.len() - i,
{
    let s2 = insert_at(s, k, w);
    lemma_insert_index(s, k, w);
    lemma_next_after(s, k, w, i);
    lemma_next_lexeme_advances(s, i);
    lemma_next_lexeme_advances(s2, i + 1);
    if let Ok((t, e)) = next_lexeme(s, i) {
        if !(t is End) {
            lemma_lexemes_after(s, k, w, e);
        }
    }
}

proof fn lemma_lexemes_before(s: Seq<char>, k: int, w: char, i: int)
    requires
        0 <= i <= k <= s.len(),
        white_space(w),
        !inside_run(s, k),
        lexemes_from(s, i) is Ok,
    ensures
        lexemes_from(insert_at(s, k, w), i) == lexemes_from(s, i),
    decreases k - i,
{
    let s2 = insert_at(s, k, w);
    lemma_insert_index(s, k, w);
    lemma_next_before(s, k, w, i);
    lemma_next_lexeme_advances(s, i);
    lemma_next_lexeme_advances(s2, i);
    lemma_white_end(s, i);
    if let Ok((t, e)) = next_lexeme(s, i) {
        if !(t is End) {
            if white_end(s, i) < k {
                lemma_lexemes_before(s, k, w, e);
            } else {
                lemma_lexemes_after(s, k, w, e);
            }
        }
    }
}

/// Whitespace between tokens does not change them: inserting a whitespace
/// character anywhere but inside a run of digits or of letters leaves the
/// tokens of a text as they were.
pub proof fn lemma_whitespace_insensitive(s: Seq<char>, k: int, w: char)
    requires
        0 <= k <= s.len(),
        white_space(w),
        !inside_run(s, k),
        lexemes(s) is Ok,
    ensures
        lexemes(insert_at(s, k, w)) == lexemes(s),
{
    lemma_lexemes_before(s, k, w, 0);
}

/// The error for the character of `s` at `j`.
pub open spec fn error_at(s: Seq<char>, j: int) -> LexError {
    LexError { ch: s[j], line: line_after(s.take(j)) as usize }
}

proof fn lemma_white_end(s: Seq<char>, i: int)
    requires
        0 <= i <= s.len(),
    ensures
        i <= white_end(s, i) <= s.len(),
        forall|k: int| i <= k < white_end(s, i) ==> white_space(#[trigger] s[k]),
        white_end(s, i) < s.len() ==> !white_space(s[white_end(s, i)]),
    decreases s.len() - i,
{
    if i < s.len() && white_space(s[i]) {
        lemma_white_end(s, i + 1);
    }
}

proof fn lemma_digit_end(s: Seq<char>, i: int)
    requires
        0 <= i <= s.len(),
    ensures
        i <= digit_end(s, i) <= s.len(),
        i < s.len() && decimal_digit(s[i]) ==> i < digit_end(s, i),
        forall|k: int| i <= k < digit_end(s, i) ==> decimal_digit(#[trigger] s[k]),
    decreases s.len() - i,
{
    if i < s.len() && decimal_digit(s[i]) {
        lemma_digit_end(s, i + 1);
    }
}

proof fn lemma_alpha_end(s: Seq<char>, i: int)
    requires
        0 <= i <= s.len(),
    ensures
        i <= alpha_end(s, i) <= s.len(),
        i < s.len() && letter(s[i]) ==> i < alpha_end(s, i),
        forall|m: int| i <= m < alpha_end(s, i) ==> letter(#[trigger] s[m]),
    decreases s.len() - i,
{
    if i < s.len() && letter(s[i]) {
        lemma_alpha_end(s, i + 1);
    }
}

/// A token other than the end of the text lies past `i`, within `s`.
pub proof fn lemma_next_lexeme_advances(s: Seq<char>, i: int)
    requires
        0 <= i <= s.len(),
    ensures
        next_lexeme(s, i) matches Ok((t, k)) ==> (i <= k <= s.len() && (!(t is End) ==> i < k)),
        next_lexeme(s, i) matches Err(j) ==> i <= j < s.len(),
        next_lexeme(s, i) matches Ok((_, k)) ==> white_end(s, i) <= k,
{
    lemma_white_end(s, i);
    let j = white_end(s, i);
    if j < s.len() {
        lemma_digit_end(s, j);
        lemma_alpha_end(s, j);
    }
}

/// The tokens of `s` from position `i` up to the end of the text (which is
/// not among them), or the position of the first character that starts no
/// token.
pub open spec fn lexemes_from(s: Seq<char>, i: int) -> Result<Seq<Lexeme>, int>
    decreases s.len() - i,
{
    match next_lexeme(s, i) {
        Err(j) => Err(j),
        Ok((t, k)) => if t is End || !(i < k <= s.len()) {
            Ok(Seq::empty())
        } else {
            match lexemes_from(s, k) {
                Err(j) => Err(j),
                Ok(rest) => Ok(seq![t].add(rest)),
            }
        },
    }
}

/// The tokens of the text `s`, or the error for its first character that
/// starts no token.
pub open spec fn lexemes(s: Seq<char>) -> Result<Seq<Lexeme>, LexError> {
    match lexemes_from(s, 0) {
        Ok(ts) => Ok(ts),
        Err(j) => Err(error_at(s, j)),
    }
}

/// The views of a sequence of tokens.
pub open spec fn views(ts: Seq<Token>) -> Seq<Lexeme> {
    ts.map_values(|t: Token| t@)
}

/// The token of a one-character operator or delimiter, or `None` for a
/// character that is none of them.
pub fn symbol_token(c: char) -> (r: Option<Token>)
    ensures
        match symbol(c) {
            Some(t) => r is Some && r->Some_0@ == t,
            None => r is None,
        },
{
    if c == '+' {
        Some(Token::ADD)
    } else if c == '-' {
        Some(Token::SUB)
    } else if c == '*' {
        Some(Token::MULT)
    } else if c == '\\' {
        Some(Token::DIV)
    } else if c == '!' {
        Some(Token::BANG)
    } else if c == '&' {
        Some(Token::AND)
    } else if c == '|' {
        Some(Token::OR)
    } else if c == '(' {
        Some(Token::LBRACKET)
    } else if c == ')' {
        Some(Token::RBRACKET)
    } else if c == '{' {
        Some(Token::LBRACE)
    } else if c == '}' {
        Some(Token::RBRACE)
    } else if c == '`' {
        Some(Token::BACKTICK)
    } else if c == ':' {
        Some(Token::COLON)
    } else {
        None
    }
}

/// A cursor over the characters of a text, with one character of
/// lookahead; it counts the lines it has passed.
pub struct Scanner {
    source: Vec<char>,
    pos: usize,
    line: usize,
}

impl Scanner {
    /// The characters of the text.
    pub closed spec fn text(&self) -> Seq<char> {
        self.source@
    }

    /// How many characters have been consumed.
    pub closed spec fn position(&self) -> int {
        self.pos as int
    }

    /// The cursor lies within the text, and the line counter matches the
    /// line feeds consumed.
    pub closed spec fn wf(&self) -> bool {
        &&& self.pos <= self.source@.len()
        &&& self.line == line_after(self.source@.take(self.pos as int))
    }

    /// A well-formed cursor lies within its text.
    pub proof fn lemma_position_in_text(&self)
        requires
            self.wf(),
        ensures
            0 <= self.position() <= self.text().len(),
    {
    }

    /// A scanner at the start of `source`.
    pub fn new(source: &str) -> (r: Scanner)
        ensures
            r.wf(),
            r.text() == source@,
            r.position() == 0,
    {
        let n = source.unicode_len();
        let mut chars: Vec<char> = Vec::new();
        let mut i: usize = 0;
        while i < n
            invariant
                n == source@.len(),
                i <= n,
                chars@ == source@.take(i as int),
            decreases n - i,
        {
            chars.push(source.get_char(i));
            i = i + 1;
            assert(chars@ =~= source@.take(i as int));
        }
        assert(chars@ =~= source@);
        assert(chars@.take(0) =~= Seq::<char>::empty());
        Scanner { source: chars, pos: 0, line: 1 }
    }

    /// The line the cursor is on: one more than the line feeds consumed.
    pub fn line(&self) -> (r: usize)
        requires
            self.wf(),
        ensures
            r == line_after(self.text().take(self.position())),
    {
        self.line
    }

    /// The lookahead character, or `None` at the end of the text.
    fn peek(&self) -> (r: Option<char>)
        requires
            self.wf(),
        ensures
            r == (if self.position() < self.text().len() {
                Some(self.text()[self.position()])
            } else {
                None
            }),
    {
        if self.pos < self.source.len() {
            Some(self.source[self.pos])
        } else {
            None
        }
    }

    /// Consumes the lookahead character and returns it; `None` at the end
    /// of the text, where nothing moves. The line counter is left as it is:
    /// the callers count lines.
    fn consume(&mut self) -> (r: Option<char>)
        requires
            old(self).pos <= old(self).source@.len(),
        ensures
            final(self).pos <= final(self).source@.len(),
            final(self).text() == old(self).text(),
            final(self).line == old(self).line,
            old(self).position() < old(self).text().len() ==> r == Some(
                old(self).text()[old(self).position()],
            ) && final(self).position() == old(self).position() + 1,
            old(self).position() >= old(self).text().len() ==> r is None && final(self).position()
                == old(self).position(),
    {
        if self.pos < self.source.len() {
            let c = self.source[self.pos];
            self.pos = self.pos + 1;
            Some(c)
        } else {
            None
        }
    }

    /// Whether the lookahead character is a decimal digit.
    fn is_digit(&self) -> (r: bool)
        requires
            self.wf(),
        ensures
            r == (self.position() < self.text().len() && decimal_digit(
                self.text()[self.position()],
            )),
    {
        match self.peek() {
            Some(c) => '0' <= c && c <= '9',
            None => false,
        }
    }

    /// Whether the lookahead character is alphabetic.
    fn is_alpha(&self) -> (r: bool)
        requires
            self.wf(),
        ensures
            r == (self.position() < self.text().len() && letter(self.text()[self.position()])),
            r ==> !white_space(self.text()[self.position()]),
    {
        match self.peek() {
            Some(c) => is_alphabetic(c),
            None => false,
        }
    }

    /// Consumes the whitespace before the next token, counting the line
    /// feeds among it.
    fn skip_whitespace(&mut self)
        requires
            old(self).wf(),
        ensures
            final(self).wf(),
            final(self).text() == old(self).text(),
            final(self).position() == white_end(old(self).text(), old(self).position()),
    {
        loop
            invariant
                self.wf(),
                self.text() == old(self).text(),
                white_end(self.text(), self.position()) == white_end(
                    old(self).text(),
                    old(self).position(),
                ),
            ensures
                white_end(self.text(), self.position()) == self.position(),
            decreases self.text().len() - self.position(),
        {
            match self.peek() {
                Some(c) => {
                    if !is_white_space(c) {
                        break ;
                    }
                    proof {
                        lemma_line_step(self.source@, self.pos as int);
                    }
                    if c == '\n' && self.line < usize::MAX {
                        self.line = self.line + 1;
                    }
                },
                None => break ,
            }
            self.consume();
        }
    }

    /// Scans the next token.
    pub fn get(&mut self) -> (r: Result<Token, LexError>)
        requires
            old(self).wf(),
        ensures
            final(self).wf(),
            final(self).text() == old(self).text(),
            match next_lexeme(old(self).text(), old(self).position()) {
                Ok((t, k)) => r is Ok && r->Ok_0@ == t && final(self).position() == k,
                Err(j) => r == Err::<Token, LexError>(error_at(old(self).text(), j)),
            },
    {
        let ghost s = self.text();
        let ghost i = self.position();
        self.skip_whitespace();
        let ghost j = self.position();
        proof {
            lemma_white_end(s, i);
        }
        let mut out = String::new();
        if self.is_digit() {
            proof {
                lemma_digit_end(s, j);
            }
            while self.is_digit()
                invariant
                    self.wf(),
                    self.text() == s,
                    j <= self.position() <= digit_end(s, j),
                    digit_end(s, self.position()) == digit_end(s, j),
                    out@ == s.subrange(j, self.position()),
                decreases s.len() - self.position(),
            {
                proof {
                    lemma_digit_end(s, self.position());
                    lemma_line_step(s, self.position());
                }
                let c = self.consume();
                if let Some(c) = c {
                    push_char(&mut out, c);
                }
                assert(out@ =~= s.subrange(j, self.position()));
            }
            Ok(Token::INT(out))
        } else if self.is_alpha() {
            proof {
                lemma_alpha_end(s, j);
            }
            while self.is_alpha()
                invariant
                    self.wf(),
                    self.text() == s,
                    j <= self.position() <= alpha_end(s, j),
                    alpha_end(s, self.position()) == alpha_end(s, j),
                    out@ == s.subrange(j, self.position()),
                decreases s.len() - self.position(),
            {
                proof {
                    lemma_alpha_end(s, self.position());
                    lemma_line_step(s, self.position());
                }
                let c = self.consume();
                if let Some(c) = c {
                    push_char(&mut out, c);
                }
                assert(out@ =~= s.subrange(j, self.position()));
            }
            Ok(Token::ALPHA(out))
        } else {
            let line = self.line;
            proof {
                if j < s.len() {
                    lemma_line_step(s, j);
                }
            }
            match self.consume() {
                None => Ok(Token::END),
                Some(c) => match symbol_token(c) {
                    Some(t) => Ok(t),
                    None => Err(LexError { ch: c, line }),
                },
            }
        }
    }

    /// The next token, or `None` once the end of the text is reached.
    pub fn next(&mut self) -> (r: Result<Option<Token>, LexError>)
        requires
            old(self).wf(),
        ensures
            final(self).wf(),
            final(self).text() == old(self).text(),
            match next_lexeme(old(self).text(), old(self).position()) {
                Ok((t, k)) => final(self).position() == k && if t is End {
                    r == Ok::<Option<Token>, LexError>(None)
                } else {
                    r is Ok && r->Ok_0 is Some && r->Ok_0->Some_0@ == t
                },
                Err(j) => r == Err::<Option<Token>, LexError>(error_at(old(self).text(), j)),
            },
    {
        match self.get() {
            Ok(Token::END) => Ok(None),
            Ok(t) => Ok(Some(t)),
            Err(e) => Err(e),
        }
    }
}

/// The tokens of `source`, without the end marker.
pub fn tokenize(source: &str) -> (r: Result<Vec<Token>, LexError>)
    ensures
        match lexemes(source@) {
            Ok(ts) => r is Ok && views(r->Ok_0@) == ts,
            Err(e) => r == Err::<Vec<Token>, LexError>(e),
        },
{
    let mut scan = Scanner::new(source);
    let mut out: Vec<Token> = Vec::new();
    let ghost s = source@;
    assert(views(out@).add(lexemes_from(s, 0)->Ok_0) =~= lexemes_from(s, 0)->Ok_0);
    loop
        invariant
            scan.wf(),
            s == source@,
            scan.text() == s,
            0 <= scan.position() <= s.len(),
            lexemes_from(s, 0) == match lexemes_from(s, scan.position()) {
                Ok(rest) => Ok::<Seq<Lexeme>, int>(views(out@).add(rest)),
                Err(j) => Err(j),
            },
        decreases s.len() - scan.position(),
    {
        let ghost i = scan.position();
        proof {
            lemma_next_lexeme_advances(s, i);
        }
        match scan.next() {
            Ok(Some(t)) => {
                proof {
                    assert(views(out@.push(t)) =~= views(out@).push(t@));
                    match lexemes_from(s, scan.position()) {
                        Ok(rest) => {
                            assert(views(out@).add(seq![t@].add(rest)) =~= views(out@.push(t)).add(rest));
                        },
                        Err(_) => {},
                    }
                }
                out.push(t);
            },
            Ok(None) => {
                assert(views(out@).add(Seq::empty()) =~= views(out@));
                return Ok(out);
            },
            Err(e) => {
                return Err(e);
            },
        }
    }
}

proof fn lemma_digit_run_to_end(s: Seq<char>, i: int)
    requires
        0 <= i <= s.len(),
        forall|k: int| i <= k < s.len() ==> decimal_digit(#[trigger] s[k]),
    ensures
        digit_end(s, i) == s.len(),
    decreases s.len() - i,
{
    if i < s.len() {
        lemma_digit_run_to_end(s, i + 1);
    }
}

/// A non-empty text of decimal digits alone is one integer token whose
/// characters are the whole text.
pub proof fn lemma_digits_one_token(s: Seq<char>)
    requires
        s.len() > 0,
        forall|k: int| 0 <= k < s.len() ==> decimal_digit(#[trigger] s[k]),
    ensures
        lexemes(s) == Ok::<Seq<Lexeme>, LexError>(seq![Lexeme::Int(s)]),
{
    lemma_digit_run_to_end(s, 0);
    assert(decimal_digit(s[0]));
    assert(white_end(s, 0) == 0);
    assert(s.subrange(0, s.len() as int) =~= s);
    assert(white_end(s, s.len() as int) == s.len());
    assert(lexemes_from(s, s.len() as int) == Ok::<Seq<Lexeme>, int>(Seq::empty()));
    assert(seq![Lexeme::Int(s)].add(Seq::empty()) =~= seq![Lexeme::Int(s)]);
}

/// Whether `c` has the Unicode `White_Space` property.
fn is_white_space(c: char) -> (r: bool)
    ensures
        r == white_space(c),
{
    ('\u{9}' <= c && c <= '\u{d}') || c == ' ' || c == '\u{85}' || c == '\u{a0}' || c == '\u{1680}'
        || ('\u{2000}' <= c && c <= '\u{200a}') || c == '\u{2028}' || c == '\u{2029}' || c
        == '\u{202f}' || c == '\u{205f}' || c == '\u{3000}'
}

/// Relies on `char::is_alphabetic`: the `Alphabetic` property, which among
/// ASCII characters holds of the letters alone, and which no whitespace
/// character has.
#[verifier::external_body]
fn is_alphabetic(c: char) -> (r: bool)
    ensures
        r == alphabetic(c),
        c <= '\x7f' ==> (r == (('a' <= c && c <= 'z') || ('A' <= c && c <= 'Z'))),
        r ==> !white_space(c),
{
    c.is_alphabetic()
}

/// Relies on `String::push`: appends one character.
#[verifier::external_body]
pub(crate) fn push_char(s: &mut String, c: char)
    ensures
        final(s)@ == old(s)@.push(c),
{
    s.push(c)
}

} // verus!
