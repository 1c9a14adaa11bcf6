//! The Spine lexer: turns source text into spanned tokens.
//!
//! The behaviour is specified by spec functions over the character sequence
//! of the input. Positions are character indices; the line and column of a
//! position are determined by the characters before it.
use vstd::prelude::*;
use crate::text::{
    is_alphabetic, is_alphanumeric, is_digit, is_hex, hex_val, hex_value, decimal, trim,
    trim_end, char_is_alphabetic, char_is_alphanumeric, exec_is_digit, exec_is_hex,
    exec_hex_val, char_from_u32, push_decimal, extend_chars, extend_str, string_from_chars,
    chars_of, trim_chars, trim_end_chars, sub_chars, chars_eq_str,
};
use crate::number::{is_spine_number, exec_is_spine_number};
use crate::token::{Token, SToken, SSpanned, SpannedToken, spanned_view, tokens_view};

verus! {

// ---------------------------------------------------------------------------
// Positions, lines and columns
// ---------------------------------------------------------------------------

/// The character at `i`, if any.
pub open spec fn at(s: Seq<char>, i: int) -> Option<char> {
    if 0 <= i < s.len() {
        Some(s[i])
    } else {
        None
    }
}

/// Whether the character at `i` is `c`.
pub open spec fn is_at(s: Seq<char>, i: int, c: char) -> bool {
    0 <= i < s.len() && s[i] == c
}

/// The number of newlines among the first `p` characters.
pub open spec fn count_nl(s: Seq<char>, p: int) -> int
    decreases p,
{
    if p <= 0 {
        0
    } else {
        count_nl(s, p - 1) + if s[p - 1] == '\n' { 1int } else { 0int }
    }
}

/// The index at which the line holding position `p` starts.
pub open spec fn line_start(s: Seq<char>, p: int) -> int
    decreases p,
{
    if p <= 0 {
        0
    } else if s[p - 1] == '\n' {
        p
    } else {
        line_start(s, p - 1)
    }
}

/// Positions past the end are reported at the end.
pub open spec fn clamp(s: Seq<char>, p: int) -> int {
    if p < s.len() { p } else { s.len() as int }
}

/// The 1-based line of position `p`.
pub open spec fn line_of(s: Seq<char>, p: int) -> int {
    1 + count_nl(s, clamp(s, p))
}

/// The 1-based column of position `p`.
pub open spec fn col_of(s: Seq<char>, p: int) -> int {
    clamp(s, p) - line_start(s, clamp(s, p)) + 1
}

/// A lexical message prefixed with the `line:column` of position `p`.
pub open spec fn loc_msg(s: Seq<char>, p: int, text: Seq<char>) -> Seq<char> {
    decimal(line_of(s, p) as nat) + seq![':'] + decimal(col_of(s, p) as nat) + seq![' '] + text
}

/// The first position at or after `i` that holds a newline, or the end.
pub open spec fn line_end(s: Seq<char>, i: int) -> int
    decreases s.len() - i,
{
    if i >= s.len() || s[i] == '\n' {
        i
    } else {
        line_end(s, i + 1)
    }
}

/// The first position at or after `i` that holds a newline or `#`, or the end.
pub open spec fn bare_end(s: Seq<char>, i: int) -> int
    decreases s.len() - i,
{
    if i >= s.len() || s[i] == '\n' || s[i] == '#' {
        i
    } else {
        bare_end(s, i + 1)
    }
}

pub proof fn lemma_line_end(s: Seq<char>, i: int)
    requires
        0 <= i <= s.len(),
    ensures
        i <= line_end(s, i) <= s.len(),
        line_end(s, i) < s.len() ==> s[line_end(s, i)] == '\n',
        forall|j: int| i <= j < line_end(s, i) ==> s[j] != '\n',
    decreases s.len() - i,
{
    if i < s.len() && s[i] != '\n' {
        lemma_line_end(s, i + 1);
    }
}

proof fn lemma_subrange_push(s: Seq<char>, a: int, b: int)
    requires
        0 <= a <= b < s.len(),
    ensures
        s.subrange(a, b + 1) == s.subrange(a, b).push(s[b]),
{
    assert(s.subrange(a, b + 1) =~= s.subrange(a, b).push(s[b]));
}

proof fn lemma_line_col_step(s: Seq<char>, p: int)
    requires
        0 <= p < s.len(),
    ensures
        line_of(s, p + 1) == line_of(s, p) + if s[p] == '\n' { 1int } else { 0int },
        col_of(s, p + 1) == if s[p] == '\n' { 1int } else { col_of(s, p) + 1 },
{
}

proof fn lemma_line_col_bounds(s: Seq<char>, p: int)
    requires
        0 <= p,
    ensures
        1 <= line_of(s, p) <= clamp(s, p) + 1,
        1 <= col_of(s, p) <= clamp(s, p) + 1,
{
    lemma_count_nl_bound(s, clamp(s, p));
    lemma_line_start_bound(s, clamp(s, p));
}

proof fn lemma_count_nl_bound(s: Seq<char>, p: int)
    requires
        0 <= p,
    ensures
        0 <= count_nl(s, p) <= p,
    decreases p,
{
    if p > 0 {
        lemma_count_nl_bound(s, p - 1);
    }
}

proof fn lemma_line_start_bound(s: Seq<char>, p: int)
    requires
        0 <= p,
    ensures
        0 <= line_start(s, p) <= p,
    decreases p,
{
    if p > 0 {
        lemma_line_start_bound(s, p - 1);
    }
}

/// The outcome of one lexing step: a token, the next position and the
/// bare-value flag after it.
pub struct Step {
    pub tok: SToken,
    pub pos: int,
    pub avs: bool,
}

// ---------------------------------------------------------------------------
// The lexer state
// ---------------------------------------------------------------------------

/// Tokenizes Spine source text into a stream of `SpannedToken` values.
///
/// The lexer handles indentation pipes, quoted and multi-line strings,
/// escape sequences, tagged literals, comments and bare values.
pub struct Lexer {
    input: Vec<char>,
    pos: usize,
    line: usize,
    col: usize,
    after_value_start: bool,
}

impl Lexer {
    /// The characters of the source text.
    pub closed spec fn text(&self) -> Seq<char> {
        self.input@
    }

    /// The current position.
    pub closed spec fn position(&self) -> int {
        self.pos as int
    }

    /// Whether the bare-value state is active.
    pub closed spec fn bare_value_state(&self) -> bool {
        self.after_value_start
    }

    /// The internal consistency of the lexer: the stored line and column are
    /// those of the current position.
    pub closed spec fn wf(&self) -> bool {
        &&& self.input@.len() + 8 <= usize::MAX
        &&& self.pos <= self.input@.len() + 1
        &&& self.line == line_of(self.input@, self.pos as int)
        &&& self.col == col_of(self.input@, self.pos as int)
    }

    /// Creates a new lexer for the given source text.
    pub fn new(input: &str) -> (r: Self)
        requires
            input@.len() + 8 <= usize::MAX,
        ensures
            r.wf(),
            r.text() == input@,
            r.position() == 0,
            !r.bare_value_state(),
    {
        Lexer {
            input: chars_of(input),
            pos: 0,
            line: 1,
            col: 1,
            after_value_start: false,
        }
    }

    fn peek(&self) -> (r: Option<char>)
        ensures
            r == at(self.input@, self.pos as int),
    {
        if self.pos < self.input.len() {
            Some(self.input[self.pos])
        } else {
            None
        }
    }

    fn peek_at(&self, i: usize) -> (r: Option<char>)
        ensures
            r == at(self.input@, i as int),
    {
        if i < self.input.len() {
            Some(self.input[i])
        } else {
            None
        }
    }

    fn advance(&mut self) -> (r: Option<char>)
        requires
            old(self).wf(),
            old(self).pos <= old(self).input@.len(),
        ensures
            final(self).wf(),
            final(self).input@ == old(self).input@,
            final(self).pos == old(self).pos + 1,
            final(self).after_value_start == old(self).after_value_start,
            r == at(old(self).input@, old(self).pos as int),
    {
        let c = self.peek();
        proof {
            lemma_line_col_bounds(self.input@, self.pos as int);
            if (self.pos as int) < self.input@.len() {
                lemma_line_col_step(self.input@, self.pos as int);
            }
        }
        self.pos = self.pos + 1;
        match c {
            Some(ch) => {
                if ch == '\n' {
                    self.line = self.line + 1;
                    self.col = 1;
                } else {
                    self.col = self.col + 1;
                }
            },
            None => {},
        }
        c
    }

    fn is_at_end(&self) -> (r: bool)
        ensures
            r == (self.pos >= self.input@.len()),
    {
        self.pos >= self.input.len()
    }
}


/// A message prefixed with a `line:column` location.
pub fn located(line: usize, col: usize, text: &str) -> (r: String)
    ensures
        r@ == decimal(line as nat) + seq![':'] + decimal(col as nat) + seq![' '] + text@,
{
    let t = chars_of(text);
    located_chars(line, col, &t)
}

/// A message, given as characters, prefixed with a `line:column` location.
pub fn located_chars(line: usize, col: usize, text: &Vec<char>) -> (r: String)
    ensures
        r@ == decimal(line as nat) + seq![':'] + decimal(col as nat) + seq![' '] + text@,
{
    let mut v: Vec<char> = Vec::new();
    push_decimal(&mut v, line);
    v.push(':');
    push_decimal(&mut v, col);
    v.push(' ');
    extend_chars(&mut v, text);
    string_from_chars(&v)
}

// ---------------------------------------------------------------------------
// Comments, tagged content and bare values
// ---------------------------------------------------------------------------

/// A line comment starting at `p` (which holds `#`).
pub open spec fn spec_line_comment(s: Seq<char>, p: int, avs: bool) -> Step {
    let e = line_end(s, p + 1);
    Step { tok: SToken::LineComment(trim(s.subrange(p + 1, e))), pos: e, avs: avs }
}

/// The scan of a block comment body from `i` with nesting `depth`: the
/// comment text (or `None` when the input ends first) and the end position.
pub open spec fn block_scan(s: Seq<char>, i: int, depth: int, acc: Seq<char>) -> (Option<Seq<char>>, int)
    decreases s.len() - i,
{
    if i >= s.len() {
        (None, i)
    } else if s[i] == '/' && is_at(s, i + 1, '*') {
        block_scan(s, i + 2, depth + 1, acc + seq!['/', '*'])
    } else if s[i] == '*' && is_at(s, i + 1, '/') {
        if depth - 1 == 0 {
            (Some(acc), i + 2)
        } else {
            block_scan(s, i + 2, depth - 1, acc + seq!['*', '/'])
        }
    } else {
        block_scan(s, i + 1, depth, acc.push(s[i]))
    }
}

/// A block comment starting at `p` (which holds `/*`).
pub open spec fn spec_block_comment(s: Seq<char>, p: int, avs: bool) -> Step {
    let r = block_scan(s, p + 2, 1, seq![]);
    Step {
        tok: match r.0 {
            Some(t) => SToken::BlockComment(trim(t)),
            None => SToken::Error(loc_msg(s, p, "unterminated block comment"@)),
        },
        pos: r.1,
        avs: avs,
    }
}

/// The one-character escapes shared by strings and tagged literals.
pub open spec fn simple_escape(e: char) -> Option<char> {
    if e == 'n' {
        Some('\n')
    } else if e == 't' {
        Some('\t')
    } else if e == 'r' {
        Some('\r')
    } else if e == '0' {
        Some('\0')
    } else if e == '\\' {
        Some('\\')
    } else if e == '"' {
        Some('"')
    } else {
        None
    }
}

fn exec_simple_escape(e: char) -> (r: Option<char>)
    ensures
        r == simple_escape(e),
{
    if e == 'n' {
        Some('\n')
    } else if e == 't' {
        Some('\t')
    } else if e == 'r' {
        Some('\r')
    } else if e == '0' {
        Some('\0')
    } else if e == '\\' {
        Some('\\')
    } else if e == '"' {
        Some('"')
    } else {
        None
    }
}

/// The token of a bare value: a number when the text matches the number
/// grammar, a string otherwise.
pub open spec fn typed_bare(t: Seq<char>) -> SToken {
    if is_spine_number(t) {
        SToken::Number(t)
    } else {
        SToken::Str(t)
    }
}

/// A bare value starting at `p`: the rest of the line up to `#`, without
/// trailing whitespace.
pub open spec fn spec_bare_value(s: Seq<char>, p: int) -> Step {
    let e = bare_end(s, p);
    Step { tok: typed_bare(trim_end(s.subrange(p, e))), pos: e, avs: false }
}

fn typed_bare_value(t: &Vec<char>) -> (r: Token)
    ensures
        r@ == typed_bare(t@),
{
    if exec_is_spine_number(t) {
        Token::Number(string_from_chars(t))
    } else {
        Token::Str(string_from_chars(t))
    }
}

impl Lexer {
    fn skip_line_comment(&mut self) -> (r: Token)
        requires
            old(self).wf(),
            is_at(old(self).input@, old(self).pos as int, '#'),
        ensures
            final(self).pos > old(self).pos,
            final(self).wf(),
            final(self).input@ == old(self).input@,
            ({
                let st = spec_line_comment(old(self).input@, old(self).pos as int, old(self).after_value_start);
                r@ == st.tok && final(self).pos == st.pos && final(self).after_value_start == st.avs
            }),
    {
        let ghost s = self.input@;
        let ghost p = self.pos as int;
        self.advance();
        proof { lemma_line_end(s, p + 1); }
        let mut content: Vec<char> = Vec::new();
        while self.pos < self.input.len()
            invariant
                self.wf(),
                s == old(self).input@,
                p == old(self).pos,
                self.input@ == s,
                self.after_value_start == old(self).after_value_start,
                p + 1 <= self.pos <= line_end(s, p + 1),
                line_end(s, self.pos as int) == line_end(s, p + 1),
                content@ == s.subrange(p + 1, self.pos as int),
            ensures
                self.wf(),
                self.input@ == s,
                self.after_value_start == old(self).after_value_start,
                self.pos == line_end(s, p + 1),
                content@ == s.subrange(p + 1, self.pos as int),
            decreases s.len() - self.pos,
        {
            let c = self.input[self.pos];
            if c == '\n' {
                break;
            }
            let ghost q = self.pos as int;
            assert(line_end(s, q) == line_end(s, q + 1));
            proof { lemma_line_end(s, q + 1); }
            content.push(c);
            self.advance();
            proof { lemma_subrange_push(s, p + 1, q); }
        }
        let t = trim_chars(&content);
        Token::LineComment(string_from_chars(&t))
    }

    fn skip_block_comment(&mut self) -> (r: Token)
        requires
            old(self).wf(),
            is_at(old(self).input@, old(self).pos as int, '/'),
            is_at(old(self).input@, old(self).pos + 1, '*'),
        ensures
            final(self).pos > old(self).pos,
            final(self).wf(),
            final(self).input@ == old(self).input@,
            ({
                let st = spec_block_comment(old(self).input@, old(self).pos as int, old(self).after_value_start);
                r@ == st.tok && final(self).pos == st.pos && final(self).after_value_start == st.avs
            }),
    {
        let ghost s = self.input@;
        let ghost p = self.pos as int;
        let start_line = self.line;
        let start_col = self.col;
        self.advance();
        self.advance();
        let mut content: Vec<char> = Vec::new();
        let mut depth: usize = 1;
        while !self.is_at_end()
            invariant
                self.wf(),
                s == old(self).input@,
                p == old(self).pos,
                self.input@ == s,
                self.after_value_start == old(self).after_value_start,
                p + 2 <= self.pos <= s.len(),
                1 <= depth <= self.pos,
                block_scan(s, self.pos as int, depth as int, content@) == block_scan(s, p + 2, 1, seq![]),
            decreases s.len() - self.pos,
        {
            let c = self.input[self.pos];
            let n = self.peek_at(self.pos + 1);
            let ghost before = content@;
            if c == '/' && n == Some('*') {
                depth = depth + 1;
                content.push('/');
                content.push('*');
                self.advance();
                self.advance();
                assert(content@ =~= before + seq!['/', '*']);
            } else if c == '*' && n == Some('/') {
                depth = depth - 1;
                self.advance();
                self.advance();
                if depth == 0 {
                    let t = trim_chars(&content);
                    return Token::BlockComment(string_from_chars(&t));
                }
                content.push('*');
                content.push('/');
                assert(content@ =~= before + seq!['*', '/']);
            } else {
                content.push(c);
                self.advance();
            }
        }
        Token::Error(located(start_line, start_col, "unterminated block comment"))
    }
}


// ---------------------------------------------------------------------------
// Scans by index
// ---------------------------------------------------------------------------

/// The first position at or after `i` that does not continue a run of
/// digits and dots.
pub open spec fn num_run_end(s: Seq<char>, i: int) -> int
    decreases s.len() - i,
{
    if i >= s.len() || !(is_digit(s[i]) || s[i] == '.') {
        i
    } else {
        num_run_end(s, i + 1)
    }
}

/// A character that may continue an identifier.
pub open spec fn ident_char(c: char) -> bool {
    is_alphanumeric(c) || c == '_' || c == '-'
}

/// The first position at or after `i` that does not continue an identifier.
pub open spec fn ident_end(s: Seq<char>, i: int) -> int
    decreases s.len() - i,
{
    if i >= s.len() || !ident_char(s[i]) {
        i
    } else {
        ident_end(s, i + 1)
    }
}

/// The first position at or after `i` that holds `"`, a newline or `#`, or
/// the end.
pub open spec fn tag_scan_end(s: Seq<char>, i: int) -> int
    decreases s.len() - i,
{
    if i >= s.len() || s[i] == '"' || s[i] == '\n' || s[i] == '#' {
        i
    } else {
        tag_scan_end(s, i + 1)
    }
}

fn scan_bare_end(s: &Vec<char>, i: usize) -> (r: usize)
    requires
        i <= s.len(),
    ensures
        r == bare_end(s@, i as int),
        i <= r <= s.len(),
        i < s.len() && s@[i as int] != '\n' && s@[i as int] != '#' ==> i < r,
{
    let mut j = i;
    while j < s.len() && s[j] != '\n' && s[j] != '#'
        invariant
            i <= j <= s.len(),
            bare_end(s@, j as int) == bare_end(s@, i as int),
        decreases s.len() - j,
    {
        j = j + 1;
    }
    j
}

fn scan_num_run(s: &Vec<char>, i: usize) -> (r: usize)
    requires
        i <= s.len(),
    ensures
        r == num_run_end(s@, i as int),
        i <= r <= s.len(),
        i < s.len() && is_digit(s@[i as int]) ==> i < r,
        forall|j: int| i <= j < r ==> is_digit(#[trigger] s@[j]) || s@[j] == '.',
{
    let mut j = i;
    while j < s.len() && (exec_is_digit(s[j]) || s[j] == '.')
        invariant
            i <= j <= s.len(),
            num_run_end(s@, j as int) == num_run_end(s@, i as int),
            forall|k: int| i <= k < j ==> is_digit(#[trigger] s@[k]) || s@[k] == '.',
        decreases s.len() - j,
    {
        j = j + 1;
    }
    j
}

fn scan_ident_end(s: &Vec<char>, i: usize) -> (r: usize)
    requires
        i <= s.len(),
    ensures
        r == ident_end(s@, i as int),
        i <= r <= s.len(),
        i < s.len() && ident_char(s@[i as int]) ==> i < r,
{
    let mut j = i;
    while j < s.len() && (char_is_alphanumeric(s[j]) || s[j] == '_' || s[j] == '-')
        invariant
            i <= j <= s.len(),
            ident_end(s@, j as int) == ident_end(s@, i as int),
        decreases s.len() - j,
    {
        j = j + 1;
    }
    j
}

fn scan_tag_end(s: &Vec<char>, i: usize) -> (r: usize)
    requires
        i <= s.len(),
    ensures
        r == tag_scan_end(s@, i as int),
        i <= r <= s.len(),
{
    let mut j = i;
    while j < s.len() && s[j] != '"' && s[j] != '\n' && s[j] != '#'
        invariant
            i <= j <= s.len(),
            tag_scan_end(s@, j as int) == tag_scan_end(s@, i as int),
        decreases s.len() - j,
    {
        j = j + 1;
    }
    j
}

/// A dotted tag suffix (after its leading `.`) read from `i`: non-empty
/// parts separated by single dots, each part starting with an alphabetic
/// character and made of alphanumerics, `_` and `-`. `start` tells whether
/// position `i` begins a part.
pub open spec fn dotted_from(t: Seq<char>, i: int, start: bool) -> bool
    decreases t.len() - i,
{
    if i >= t.len() {
        !start
    } else if t[i] == '.' {
        !start && dotted_from(t, i + 1, true)
    } else {
        ident_char(t[i]) && (!start || is_alphabetic(t[i])) && dotted_from(t, i + 1, false)
    }
}

/// A valid dotted tag suffix.
pub open spec fn valid_dotted(t: Seq<char>) -> bool {
    dotted_from(t, 0, true)
}

fn check_dotted(t: &Vec<char>, from: usize) -> (r: bool)
    requires
        from <= t.len(),
    ensures
        r == valid_dotted(t@.subrange(from as int, t.len() as int)),
{
    let ghost u = t@.subrange(from as int, t.len() as int);
    let n = t.len();
    let mut i = from;
    let mut start = true;
    while i < n
        invariant
            from <= i <= n,
            n == t.len(),
            u == t@.subrange(from as int, n as int),
            dotted_from(u, i - from, start) == dotted_from(u, 0, true),
        decreases n - i,
    {
        let c = t[i];
        assert(u[i - from] == c);
        if c == '.' {
            if start {
                return false;
            }
            start = true;
        } else {
            if !(char_is_alphanumeric(c) || c == '_' || c == '-') {
                return false;
            }
            if start && !char_is_alphabetic(c) {
                return false;
            }
            start = false;
        }
        i = i + 1;
    }
    !start
}

impl Lexer {
    fn advance_to(&mut self, k: usize)
        requires
            old(self).wf(),
            old(self).pos <= k <= old(self).input@.len() + 1,
        ensures
            final(self).wf(),
            final(self).input@ == old(self).input@,
            final(self).pos == k,
            final(self).after_value_start == old(self).after_value_start,
    {
        while self.pos < k
            invariant
                self.wf(),
                self.input@ == old(self).input@,
                self.pos <= k <= self.input@.len() + 1,
                self.after_value_start == old(self).after_value_start,
            decreases k - self.pos,
        {
            self.advance();
        }
    }

    /// Reads the content of a tagged literal from just after its opening
    /// quote, as a quoted string: the content, or the error message.
    fn read_tagged_content(&mut self) -> (r: Result<String, Vec<char>>)
        requires
            old(self).wf(),
            old(self).pos <= old(self).input@.len(),
        ensures
            final(self).wf(),
            final(self).input@ == old(self).input@,
            final(self).after_value_start == old(self).after_value_start,
            final(self).pos >= old(self).pos,
            match str_scan(old(self).input@, old(self).pos as int, seq![]) {
                Scan::Done(c, n) => r matches Ok(x) && x@ == c && final(self).pos == n,
                Scan::Fail(m, n) => r matches Err(e) && e@ == m && final(self).pos == n,
            },
    {
        let (res, k) = quoted_body(&self.input, self.pos);
        self.advance_to(k);
        match res {
            Ok(v) => Ok(string_from_chars(&v)),
            Err(m) => Err(m),
        }
    }

    fn consume_bare_value(&mut self) -> (r: Token)
        requires
            old(self).pos < old(self).input@.len(),
            old(self).input@[old(self).pos as int] != '\n',
            old(self).input@[old(self).pos as int] != '#',
            old(self).wf(),
            old(self).pos <= old(self).input@.len(),
        ensures
            final(self).pos > old(self).pos,
            final(self).wf(),
            final(self).input@ == old(self).input@,
            ({
                let st = spec_bare_value(old(self).input@, old(self).pos as int);
                r@ == st.tok && final(self).pos == st.pos && final(self).after_value_start == st.avs
            }),
    {
        let start = self.pos;
        let e = scan_bare_end(&self.input, start);
        let raw = sub_chars(&self.input, start, e);
        self.advance_to(e);
        self.after_value_start = false;
        let t = trim_end_chars(&raw);
        typed_bare_value(&t)
    }
}


/// A number-like run starting at `p` (which holds a digit).
pub open spec fn spec_lex_number(s: Seq<char>, p: int, avs: bool) -> Step {
    let i = num_run_end(s, p);
    if avs {
        let e = bare_end(s, i);
        Step { tok: typed_bare(trim_end(s.subrange(p, e))), pos: e, avs: false }
    } else {
        Step { tok: typed_bare(s.subrange(p, i)), pos: i, avs: false }
    }
}

/// A keyword (`true`, `false`, `null`) or an identifier.
pub open spec fn keyword_or_ident(name: Seq<char>) -> SToken {
    if name == "true"@ {
        SToken::Bool(true)
    } else if name == "false"@ {
        SToken::Bool(false)
    } else if name == "null"@ {
        SToken::Null
    } else {
        SToken::Ident(name)
    }
}

/// A tagged literal with tag `tag` whose opening quote is at `q`: the
/// content follows the rules of a quoted string (escapes, no newline), and
/// an error is located at the opening quote.
pub open spec fn spec_tagged(s: Seq<char>, tag: Seq<char>, q: int, avs: bool) -> Step {
    match str_scan(s, q + 1, seq![]) {
        Scan::Done(c, n) => Step { tok: SToken::Tagged(tag, c), pos: n, avs: avs },
        Scan::Fail(m, n) => Step { tok: SToken::Error(loc_msg(s, q, m)), pos: n, avs: avs },
    }
}

/// Whether the dot at `i` starts a dotted tag: the characters up to the
/// next quote (before any newline or `#`) form a valid dotted suffix.
pub open spec fn dotted_tag_at(s: Seq<char>, i: int) -> bool {
    let k = tag_scan_end(s, i);
    is_at(s, i, '.') && is_at(s, k, '"') && valid_dotted(s.subrange(i + 1, k))
}

/// An identifier, keyword, tagged literal or bare value starting at `p`.
pub open spec fn spec_lex_ident(s: Seq<char>, p: int, avs: bool) -> Step {
    let i = ident_end(s, p);
    let name = s.subrange(p, i);
    if is_at(s, i, '"') {
        spec_tagged(s, name, i, avs)
    } else if dotted_tag_at(s, i) {
        let k = tag_scan_end(s, i);
        spec_tagged(s, name + s.subrange(i, k), k, avs)
    } else if avs {
        let e = bare_end(s, i);
        Step { tok: typed_bare(trim_end(s.subrange(p, e))), pos: e, avs: false }
    } else {
        Step { tok: keyword_or_ident(name), pos: i, avs: avs }
    }
}

impl Lexer {
    fn lex_number(&mut self) -> (r: Token)
        requires
            is_digit(old(self).input@[old(self).pos as int]),
            old(self).wf(),
            old(self).pos < old(self).input@.len(),
        ensures
            final(self).pos > old(self).pos,
            final(self).wf(),
            final(self).input@ == old(self).input@,
            ({
                let st = spec_lex_number(old(self).input@, old(self).pos as int, old(self).after_value_start);
                r@ == st.tok && final(self).pos == st.pos && final(self).after_value_start == st.avs
            }),
    {
        let start = self.pos;
        let i = scan_num_run(&self.input, start);
        if self.after_value_start {
            let e = scan_bare_end(&self.input, i);
            let raw = sub_chars(&self.input, start, e);
            self.advance_to(e);
            self.after_value_start = false;
            let t = trim_end_chars(&raw);
            return typed_bare_value(&t);
        }
        let raw = sub_chars(&self.input, start, i);
        self.advance_to(i);
        typed_bare_value(&raw)
    }

    /// A tagged literal with tag `tag` whose opening quote is at the
    /// current position.
    fn tagged_token(&mut self, tag: &Vec<char>) -> (r: Token)
        requires
            old(self).wf(),
            is_at(old(self).input@, old(self).pos as int, '"'),
        ensures
            final(self).wf(),
            final(self).input@ == old(self).input@,
            final(self).pos > old(self).pos,
            ({
                let st = spec_tagged(old(self).input@, tag@, old(self).pos as int, old(self).after_value_start);
                r@ == st.tok && final(self).pos == st.pos && final(self).after_value_start == st.avs
            }),
    {
        let line = self.line;
        let col = self.col;
        self.advance();
        match self.read_tagged_content() {
            Ok(content) => Token::Tagged(string_from_chars(tag), content),
            Err(m) => Token::Error(located_chars(line, col, &m)),
        }
    }

    fn lex_ident_or_keyword(&mut self) -> (r: Token)
        requires
            is_alphanumeric(old(self).input@[old(self).pos as int]) || old(self).input@[old(self).pos as int] == '_',
            old(self).wf(),
            old(self).pos < old(self).input@.len(),
        ensures
            final(self).pos > old(self).pos,
            final(self).wf(),
            final(self).input@ == old(self).input@,
            ({
                let st = spec_lex_ident(old(self).input@, old(self).pos as int, old(self).after_value_start);
                r@ == st.tok && final(self).pos == st.pos && final(self).after_value_start == st.avs
            }),
    {
        let ghost s = self.input@;
        let start = self.pos;
        let i = scan_ident_end(&self.input, start);
        let name = sub_chars(&self.input, start, i);
        self.advance_to(i);
        if i < self.input.len() && self.input[i] == '"' {
            return self.tagged_token(&name);
        }
        if i < self.input.len() && self.input[i] == '.' {
            let k = scan_tag_end(&self.input, i);
            if k < self.input.len() && self.input[k] == '"' && check_dotted(&sub_chars(&self.input, 0, k), i + 1) {
                assert(s.subrange(0, k as int).subrange(i + 1, k as int) =~= s.subrange(i + 1, k as int));
                let seg = sub_chars(&self.input, i, k);
                let mut full = name;
                extend_chars(&mut full, &seg);
                self.advance_to(k);
                return self.tagged_token(&full);
            }
            assert(!dotted_tag_at(s, i as int)) by {
                if k < s.len() && s[k as int] == '"' {
                    assert(s.subrange(0, k as int).subrange(i + 1, k as int) =~= s.subrange(i + 1, k as int));
                }
            }
        }
        if self.after_value_start {
            let e = scan_bare_end(&self.input, i);
            let raw = sub_chars(&self.input, start, e);
            self.advance_to(e);
            self.after_value_start = false;
            let t = trim_end_chars(&raw);
            return typed_bare_value(&t);
        }
        if chars_eq_str(&name, "true") {
            Token::Bool(true)
        } else if chars_eq_str(&name, "false") {
            Token::Bool(false)
        } else if chars_eq_str(&name, "null") {
            Token::Null
        } else {
            Token::Ident(string_from_chars(&name))
        }
    }
}


// ---------------------------------------------------------------------------
// Escape sequences
// ---------------------------------------------------------------------------

/// The first position at or after `i` that does not hold a hex digit.
pub open spec fn hex_run_end(s: Seq<char>, i: int) -> int
    decreases s.len() - i,
{
    if i >= s.len() || !is_hex(s[i]) {
        i
    } else {
        hex_run_end(s, i + 1)
    }
}

/// The offset `k < 4` of the first of the four characters from `i` that is
/// not a hex digit, or 4 when all four are hex digits.
pub open spec fn four_hex_fail(s: Seq<char>, i: int) -> int {
    if !(0 <= i < s.len() && is_hex(s[i])) {
        0
    } else if !(i + 1 < s.len() && is_hex(s[i + 1])) {
        1
    } else if !(i + 2 < s.len() && is_hex(s[i + 2])) {
        2
    } else if !(i + 3 < s.len() && is_hex(s[i + 3])) {
        3
    } else {
        4
    }
}

/// A surrogate code point.
pub open spec fn is_surrogate(v: int) -> bool {
    0xD800 <= v <= 0xDFFF
}

/// The largest value of a `u32`.
pub open spec fn u32_max() -> int {
    0xFFFF_FFFF
}

/// The outcome of the escape sequence whose backslash is at `i`.
pub enum Esc {
    /// The escaped character and the position after the sequence.
    Char(char, int),
    /// An error message and the position the lexer has reached.
    Fail(Seq<char>, int),
}

/// The escape sequence whose backslash is at `i`, with an escape character
/// at `i + 1`.
pub open spec fn escape_step(t: Seq<char>, i: int) -> Esc {
    let e = t[i + 1];
    match simple_escape(e) {
        Some(x) => Esc::Char(x, i + 2),
        None => if e == 'x' {
            if i + 3 < t.len() && is_hex(t[i + 2]) && is_hex(t[i + 3]) {
                Esc::Char((hex_val(t[i + 2]) * 16 + hex_val(t[i + 3])) as char, i + 4)
            } else {
                Esc::Fail("invalid \\x escape"@, i + 2)
            }
        } else if e == 'u' {
            if is_at(t, i + 2, '{') {
                let b = hex_run_end(t, i + 3);
                if !is_at(t, b, '}') {
                    Esc::Fail("invalid \\u{} escape"@, b)
                } else if b == i + 3 {
                    Esc::Fail("empty \\u{} escape"@, b + 1)
                } else {
                    let v = hex_value(t.subrange(i + 3, b));
                    if v > 0x10FFFF {
                        Esc::Fail("unicode escape out of range"@, b + 1)
                    } else if is_surrogate(v) {
                        Esc::Fail("surrogate unicode escape"@, b + 1)
                    } else {
                        Esc::Char(v as char, b + 1)
                    }
                }
            } else if four_hex_fail(t, i + 2) < 4 {
                Esc::Fail("invalid \\u escape (need 4 hex digits)"@, i + 3 + four_hex_fail(t, i + 2))
            } else {
                let v = hex_value(t.subrange(i + 2, i + 6));
                if is_surrogate(v) {
                    Esc::Fail("surrogate unicode escape"@, i + 6)
                } else {
                    Esc::Char(v as char, i + 6)
                }
            }
        } else {
            Esc::Fail("invalid escape sequence: \\"@ + seq![e], i + 2)
        }
    }
}

pub proof fn lemma_escape_step_advances(t: Seq<char>, i: int)
    requires
        0 <= i,
        i + 1 < t.len(),
    ensures
        escape_step(t, i) matches Esc::Char(_, n) ==> i + 2 <= n <= t.len(),
        escape_step(t, i) matches Esc::Fail(_, n) ==> i + 2 <= n <= t.len() + 1,
{
    if is_at(t, i + 2, '{') {
        lemma_hex_run_end(t, i + 3);
    }
}

/// Resolving the escapes of a multi-line string from index `i`: `Ok` with the
/// text, or `Err` with the message of the first bad escape.
pub open spec fn unescape(t: Seq<char>, i: int, acc: Seq<char>) -> Result<Seq<char>, Seq<char>>
    decreases t.len() - i,
{
    if i < 0 || i >= t.len() {
        Ok(acc)
    } else if t[i] != '\\' {
        unescape(t, i + 1, acc.push(t[i]))
    } else if i + 1 >= t.len() {
        Err("unterminated escape at end of string"@)
    } else {
        match escape_step(t, i) {
            Esc::Char(x, n) => {
                proof { lemma_escape_step_advances(t, i); }
                unescape(t, n, acc.push(x))
            },
            Esc::Fail(m, _) => Err(m),
        }
    }
}

pub proof fn lemma_hex_run_end(s: Seq<char>, i: int)
    requires
        i <= s.len(),
    ensures
        i <= hex_run_end(s, i) <= s.len(),
        forall|j: int| i <= j < hex_run_end(s, i) ==> is_hex(#[trigger] s[j]),
        hex_run_end(s, i) < s.len() ==> !is_hex(s[hex_run_end(s, i)]),
    decreases s.len() - i,
{
    if i < s.len() && is_hex(s[i]) {
        lemma_hex_run_end(s, i + 1);
    }
}

/// A run of hex digits ended by a non-hex character ends there, wherever
/// it stands.
proof fn lemma_hex_run_at(s: Seq<char>, i: int, b: int)
    requires
        0 <= i <= b < s.len(),
        forall|j: int| i <= j < b ==> is_hex(#[trigger] s[j]),
        !is_hex(s[b]),
    ensures
        hex_run_end(s, i) == b,
    decreases b - i,
{
    if i < b {
        lemma_hex_run_at(s, i + 1, b);
    }
}

/// An escape sequence that resolves to a character reads only the
/// characters it spans: the same characters anywhere give the same
/// character and span.
proof fn lemma_escape_local(t: Seq<char>, i: int, u: Seq<char>, k: int)
    requires
        0 <= i,
        i + 1 < t.len(),
        escape_step(t, i) is Char,
        0 <= k,
        k + (escape_step(t, i)->Char_1 - i) <= u.len(),
        forall|d: int| 0 <= d < escape_step(t, i)->Char_1 - i ==> u[k + d] == #[trigger] t[i + d],
    ensures
        escape_step(u, k) == Esc::Char(escape_step(t, i)->Char_0, k + (escape_step(t, i)->Char_1 - i)),
{
    lemma_escape_step_advances(t, i);
    let n = escape_step(t, i)->Char_1;
    assert(u[k + 1] == t[i + 1]);
    let e = t[i + 1];
    if simple_escape(e) is None {
        if e == 'x' {
            assert(u[k + 2] == t[i + 2]);
            assert(u[k + 3] == t[i + 3]);
        } else if e == 'u' {
            assert(u[k + 2] == t[i + 2]);
            if is_at(t, i + 2, '{') {
                let b = hex_run_end(t, i + 3);
                lemma_hex_run_end(t, i + 3);
                assert(n == b + 1);
                assert forall|j: int| k + 3 <= j < k + (b - i) implies is_hex(#[trigger] u[j]) by {
                    assert(u[k + (j - k)] == t[i + (j - k)]);
                }
                assert(u[k + (b - i)] == t[i + (b - i)]);
                lemma_hex_run_at(u, k + 3, k + (b - i));
                assert(u.subrange(k + 3, k + (b - i)) =~= t.subrange(i + 3, b)) by {
                    assert forall|j: int| 0 <= j < b - i - 3 implies
                        #[trigger] u.subrange(k + 3, k + (b - i))[j] == t.subrange(i + 3, b)[j] by {
                        assert(u[k + (3 + j)] == t[i + (3 + j)]);
                    }
                }
            } else {
                assert(u[k + 3] == t[i + 3]);
                assert(u[k + 4] == t[i + 4]);
                assert(u[k + 5] == t[i + 5]);
                assert(u.subrange(k + 2, k + 6) =~= t.subrange(i + 2, i + 6)) by {
                    assert forall|j: int| 0 <= j < 4 implies
                        #[trigger] u.subrange(k + 2, k + 6)[j] == t.subrange(i + 2, i + 6)[j] by {
                        assert(u[k + (2 + j)] == t[i + (2 + j)]);
                    }
                }
            }
        }
    }
}

/// Resolving escapes with a longer accumulator puts its extra prefix
/// before the result.
proof fn lemma_unescape_acc(t: Seq<char>, i: int, p: Seq<char>, acc: Seq<char>)
    ensures
        unescape(t, i, p + acc) == match unescape(t, i, acc) {
            Ok(r) => Ok::<Seq<char>, Seq<char>>(p + r),
            Err(m) => Err(m),
        },
    decreases t.len() - i,
{
    if i < 0 || i >= t.len() {
    } else if t[i] != '\\' {
        assert((p + acc).push(t[i]) =~= p + acc.push(t[i]));
        lemma_unescape_acc(t, i + 1, p, acc.push(t[i]));
    } else if i + 1 >= t.len() {
    } else {
        match escape_step(t, i) {
            Esc::Char(x, n) => {
                lemma_escape_step_advances(t, i);
                assert((p + acc).push(x) =~= p + acc.push(x));
                lemma_unescape_acc(t, n, p, acc.push(x));
            },
            Esc::Fail(m, _) => {},
        }
    }
}

/// Resolving the escapes of `a + b` from inside `a`, where `a` resolves
/// from there, goes on from the end of `a` with `a`'s result.
proof fn lemma_unescape_prefix(a: Seq<char>, b: Seq<char>, i: int, acc: Seq<char>)
    requires
        0 <= i <= a.len(),
        unescape(a, i, acc) is Ok,
    ensures
        unescape(a + b, i, acc) == unescape(a + b, a.len() as int, unescape(a, i, acc)->Ok_0),
    decreases a.len() - i,
{
    let t = a + b;
    if i >= a.len() {
    } else if a[i] != '\\' {
        assert(t[i] == a[i]);
        lemma_unescape_prefix(a, b, i + 1, acc.push(a[i]));
    } else if i + 1 >= a.len() {
    } else {
        match escape_step(a, i) {
            Esc::Char(x, n) => {
                lemma_escape_step_advances(a, i);
                assert(t[i] == a[i]);
                assert forall|d: int| 0 <= d < n - i implies t[i + d] == #[trigger] a[i + d] by {}
                lemma_escape_local(a, i, t, i);
                lemma_unescape_prefix(a, b, n, acc.push(x));
            },
            Esc::Fail(m, _) => {},
        }
    }
}

/// Resolving the escapes of `a + b` from inside `b` is resolving those of
/// `b`, when `b` resolves from there.
proof fn lemma_unescape_suffix(a: Seq<char>, b: Seq<char>, j: int, acc: Seq<char>)
    requires
        0 <= j,
        unescape(b, j, acc) is Ok,
    ensures
        unescape(a + b, a.len() + j, acc) == unescape(b, j, acc),
    decreases b.len() - j,
{
    let t = a + b;
    let k = a.len() + j;
    if j >= b.len() {
    } else if b[j] != '\\' {
        assert(t[k] == b[j]);
        lemma_unescape_suffix(a, b, j + 1, acc.push(b[j]));
    } else if j + 1 >= b.len() {
    } else {
        match escape_step(b, j) {
            Esc::Char(x, n) => {
                lemma_escape_step_advances(b, j);
                assert(t[k] == b[j]);
                assert forall|d: int| 0 <= d < n - j implies t[k + d] == #[trigger] b[j + d] by {}
                lemma_escape_local(b, j, t, k);
                lemma_unescape_suffix(a, b, n, acc.push(x));
                assert(a.len() + n == k + (n - j));
            },
            Esc::Fail(m, _) => {},
        }
    }
}

/// Escape resolution distributes over concatenation: when `a` and `b`
/// each resolve, `a + b` resolves to the concatenation of their results.
pub proof fn law_unescape_concat(a: Seq<char>, b: Seq<char>)
    requires
        unescape(a, 0, seq![]) is Ok,
        unescape(b, 0, seq![]) is Ok,
    ensures
        unescape(a + b, 0, seq![]) == Ok::<Seq<char>, Seq<char>>(
            unescape(a, 0, seq![])->Ok_0 + unescape(b, 0, seq![])->Ok_0),
{
    let x = unescape(a, 0, seq![])->Ok_0;
    let y = unescape(b, 0, seq![])->Ok_0;
    lemma_unescape_prefix(a, b, 0, seq![]);
    lemma_unescape_acc(b, 0, x, seq![]);
    assert(x + Seq::<char>::empty() =~= x);
    lemma_unescape_suffix(a, b, 0, x);
    assert(a.len() + 0 == a.len());
}

fn scan_hex_run(s: &Vec<char>, i: usize) -> (r: usize)
    requires
        i <= s.len(),
    ensures
        r == hex_run_end(s@, i as int),
        i <= r <= s.len(),
{
    proof { lemma_hex_run_end(s@, i as int); }
    let mut j = i;
    while j < s.len() && exec_is_hex(s[j])
        invariant
            i <= j <= s.len(),
            hex_run_end(s@, j as int) == hex_run_end(s@, i as int),
        decreases s.len() - j,
    {
        j = j + 1;
    }
    j
}

/// The value of the hex digits `s[from..to]`, or `None` when it exceeds
/// the range of a `u32`.
fn hex_run_value(s: &Vec<char>, from: usize, to: usize) -> (r: Option<u32>)
    requires
        from <= to <= s.len(),
        forall|j: int| from <= j < to ==> is_hex(#[trigger] s@[j]),
    ensures
        match r {
            Some(v) => v as int == hex_value(s@.subrange(from as int, to as int)),
            None => hex_value(s@.subrange(from as int, to as int)) > u32_max(),
        },
{
    let mut v: u64 = 0;
    let mut over = false;
    let mut i = from;
    while i < to
        invariant
            from <= i <= to <= s.len(),
            forall|j: int| from <= j < to ==> is_hex(#[trigger] s@[j]),
            !over ==> v as int == hex_value(s@.subrange(from as int, i as int)) && v <= 0xFFFF_FFFF,
            over ==> hex_value(s@.subrange(from as int, i as int)) > u32_max(),
        decreases to - i,
    {
        let d = exec_hex_val(s[i]);
        let ghost pre = s@.subrange(from as int, i as int);
        assert(s@.subrange(from as int, i + 1) =~= pre.push(s@[i as int]));
        assert(pre.push(s@[i as int]).drop_last() =~= pre);
        assert(hex_value(pre.push(s@[i as int])) == hex_value(pre) * 16 + hex_val(s@[i as int]));
        if !over {
            let nv = v * 16 + (d as u64);
            if nv > 0xFFFF_FFFF {
                over = true;
            } else {
                v = nv;
            }
        }
        i = i + 1;
    }
    if over {
        None
    } else {
        Some(v as u32)
    }
}

proof fn lemma_char_of_u32(c: char, v: u32)
    requires
        c as u32 == v,
    ensures
        c == (v as int) as char,
{
}

/// The executable outcome of an escape sequence.
enum EscOut {
    Char(char, usize),
    Fail(Vec<char>, usize),
}

/// Reads the escape sequence whose backslash is at `i`.
fn escape_at(t: &Vec<char>, i: usize) -> (r: EscOut)
    requires
        i + 1 < t.len(),
        t.len() + 8 <= usize::MAX,
    ensures
        r matches EscOut::Char(c, k) ==> escape_step(t@, i as int) == Esc::Char(c, k as int),
        r matches EscOut::Fail(m, k) ==> escape_step(t@, i as int) == Esc::Fail(m@, k as int),
{
    let n = t.len();
    let e = t[i + 1];
    match exec_simple_escape(e) {
        Some(x) => {
            return EscOut::Char(x, i + 2);
        },
        None => {},
    }
    assert(simple_escape(e) is None);
    assert(e == t@[i + 1]);
    if e == 'x' {
        if n - i > 3 && exec_is_hex(t[i + 2]) && exec_is_hex(t[i + 3]) {
            let v = exec_hex_val(t[i + 2]) * 16 + exec_hex_val(t[i + 3]);
            let ch = (v as u8) as char;
            assert(v < 256);
            assert(ch == ((v as u8) as int) as char);
            assert(ch == (hex_val(t@[i + 2]) * 16 + hex_val(t@[i + 3])) as char);
            assert(escape_step(t@, i as int) == Esc::Char(ch, i + 4));
            return EscOut::Char(ch, i + 4);
        }
        assert(escape_step(t@, i as int) == Esc::Fail("invalid \\x escape"@, i + 2));
        return EscOut::Fail(chars_of("invalid \\x escape"), i + 2);
    } else if e == 'u' {
        if n - i > 2 && t[i + 2] == '{' {
            let b = scan_hex_run(t, i + 3);
            if !(b < n && t[b] == '}') {
                return EscOut::Fail(chars_of("invalid \\u{} escape"), b);
            }
            if b == i + 3 {
                return EscOut::Fail(chars_of("empty \\u{} escape"), b + 1);
            }
            proof { lemma_hex_run_end(t@, i + 3); }
            let v = match hex_run_value(t, i + 3, b) {
                Some(v) => v,
                None => {
                    return EscOut::Fail(chars_of("unicode escape out of range"), b + 1);
                },
            };
            if v > 0x10FFFF {
                return EscOut::Fail(chars_of("unicode escape out of range"), b + 1);
            }
            if 0xD800 <= v && v <= 0xDFFF {
                return EscOut::Fail(chars_of("surrogate unicode escape"), b + 1);
            }
            match char_from_u32(v) {
                Some(ch) => {
                    proof { lemma_char_of_u32(ch, v); }
                    return EscOut::Char(ch, b + 1);
                },
                None => {
                    return EscOut::Fail(Vec::new(), 0);
                },
            }
        }
        let mut k: usize = 0;
        while k < 4
            invariant
                k <= 4,
                i + 1 < n == t.len(),
                n + 8 <= usize::MAX,
                e == t@[i + 1],
                e == 'u',
                simple_escape(e) is None,
                !is_at(t@, i + 2, '{'),
                forall|j: int| 0 <= j < k ==> i + 2 + j < t.len() && is_hex(#[trigger] t@[i + 2 + j]),
            decreases 4 - k,
        {
            if !(i + 2 + k < n && exec_is_hex(t[i + 2 + k])) {
                proof {
                    assert(four_hex_fail(t@, i + 2) == k) by {
                        if k > 0 { assert(is_hex(t@[i + 2 + 0])); }
                        if k > 1 { assert(is_hex(t@[i + 2 + 1])); }
                        if k > 2 { assert(is_hex(t@[i + 2 + 2])); }
                    }
                }
                return EscOut::Fail(chars_of("invalid \\u escape (need 4 hex digits)"), i + 3 + k);
            }
            k = k + 1;
        }
        assert(four_hex_fail(t@, i + 2) == 4) by {
            assert(is_hex(t@[i + 2 + 0]));
            assert(is_hex(t@[i + 2 + 1]));
            assert(is_hex(t@[i + 2 + 2]));
            assert(is_hex(t@[i + 2 + 3]));
        }
        let v = match hex_run_value(t, i + 2, i + 6) {
            Some(v) => v,
            None => {
                assert(false) by {
                    assert(t@.subrange(i + 2, i + 6) =~= seq![t@[i + 2], t@[i + 3], t@[i + 4], t@[i + 5]]);
                    reveal_with_fuel(hex_value, 5);
                }
                return EscOut::Fail(Vec::new(), 0);
            },
        };
        if 0xD800 <= v && v <= 0xDFFF {
            return EscOut::Fail(chars_of("surrogate unicode escape"), i + 6);
        }
        match char_from_u32(v) {
            Some(ch) => {
                proof { lemma_char_of_u32(ch, v); }
                EscOut::Char(ch, i + 6)
            },
            None => {
                assert(false) by {
                    assert(t@.subrange(i + 2, i + 6) =~= seq![t@[i + 2], t@[i + 3], t@[i + 4], t@[i + 5]]);
                    reveal_with_fuel(hex_value, 5);
                }
                EscOut::Fail(Vec::new(), 0)
            },
        }
    } else {
        let mut m = chars_of("invalid escape sequence: \\");
        m.push(e);
        assert(m@ =~= "invalid escape sequence: \\"@ + seq![e]);
        EscOut::Fail(m, i + 2)
    }
}

/// Resolves the escape sequences of a multi-line string body: the text,
/// or the message of the first bad escape.
fn process_str_escapes(t: &Vec<char>) -> (r: Result<Vec<char>, Vec<char>>)
    requires
        t.len() + 8 <= usize::MAX,
    ensures
        match r {
            Ok(v) => unescape(t@, 0, seq![]) == Ok::<Seq<char>, Seq<char>>(v@),
            Err(m) => unescape(t@, 0, seq![]) == Err::<Seq<char>, Seq<char>>(m@),
        },
{
    let mut result: Vec<char> = Vec::new();
    let mut i: usize = 0;
    let n = t.len();
    while i < n
        invariant
            n == t.len(),
            n + 8 <= usize::MAX,
            i <= n,
            unescape(t@, i as int, result@) == unescape(t@, 0, seq![]),
        decreases n - i,
    {
        let c = t[i];
        if c != '\\' {
            result.push(c);
            i = i + 1;
        } else if i + 1 >= n {
            return Err(chars_of("unterminated escape at end of string"));
        } else {
            proof { lemma_escape_step_advances(t@, i as int); }
            match escape_at(t, i) {
                EscOut::Char(x, next) => {
                    result.push(x);
                    i = next;
                },
                EscOut::Fail(m, _) => {
                    return Err(m);
                },
            }
        }
    }
    Ok(result)
}


// ---------------------------------------------------------------------------
// Quoted and multi-line strings
// ---------------------------------------------------------------------------

/// The outcome of scanning a quoted string body.
pub enum Scan {
    /// The string's content and the position after the closing quote.
    Done(Seq<char>, int),
    /// An error message and the position the lexer has reached.
    Fail(Seq<char>, int),
}

/// The body of a quoted string from `i`, with the content read so far.
pub open spec fn str_scan(s: Seq<char>, i: int, acc: Seq<char>) -> Scan
    decreases s.len() - i,
{
    if i < 0 || i >= s.len() {
        Scan::Fail("unterminated string"@, i)
    } else if s[i] == '"' {
        Scan::Done(acc, i + 1)
    } else if s[i] == '\n' {
        Scan::Fail("unterminated string"@, i)
    } else if s[i] == '\\' {
        if i + 1 >= s.len() {
            Scan::Fail("unterminated string"@, i + 2)
        } else {
            match escape_step(s, i) {
                Esc::Char(x, n) => {
                    proof { lemma_escape_step_advances(s, i); }
                    str_scan(s, n, acc.push(x))
                },
                Esc::Fail(m, n) => Scan::Fail(m, n),
            }
        }
    } else {
        str_scan(s, i + 1, acc.push(s[i]))
    }
}

/// The position after the newline that ends the line holding `x`, or the end.
pub open spec fn next_line(s: Seq<char>, x: int) -> int {
    let e = line_end(s, x);
    if e < s.len() { e + 1 } else { e }
}

/// The number of pipes in the run of spaces, tabs and pipes starting at `x`,
/// added to `d`.
pub open spec fn depth_count(s: Seq<char>, x: int, d: int) -> int
    decreases s.len() - x,
{
    if 0 <= x < s.len() && (s[x] == ' ' || s[x] == '\t') {
        depth_count(s, x + 1, d)
    } else if 0 <= x < s.len() && s[x] == '|' {
        depth_count(s, x + 1, d + 1)
    } else {
        d
    }
}

/// Skips spaces, tabs and at most `depth - k` pipes from `x`: the position
/// reached and the number of pipes skipped (added to `k`).
pub open spec fn pipe_scan(s: Seq<char>, x: int, k: int, depth: int) -> (int, int)
    decreases s.len() - x,
{
    if 0 <= x < s.len() && (s[x] == ' ' || s[x] == '\t') {
        pipe_scan(s, x + 1, k, depth)
    } else if 0 <= x < s.len() && s[x] == '|' && k < depth {
        pipe_scan(s, x + 1, k + 1, depth)
    } else {
        (x, k)
    }
}

/// Whether the line at `x` closes a multi-line string of indentation `depth`:
/// after the indentation comes `"""`.
pub open spec fn closes_at(s: Seq<char>, x: int, depth: int) -> bool {
    let r = pipe_scan(s, x, 0, depth);
    r.1 == depth && is_at(s, r.0, '"') && is_at(s, r.0 + 1, '"') && is_at(s, r.0 + 2, '"')
}

/// The index from which a multi-line string line is kept: up to `depth`
/// pipes (with the spaces and tabs among them) are removed, then one space.
pub open spec fn strip_from(l: Seq<char>, i: int, k: int, depth: int) -> int
    decreases l.len() - i,
{
    if k < depth && 0 <= i < l.len() && (l[i] == ' ' || l[i] == '\t') {
        strip_from(l, i + 1, k, depth)
    } else if k < depth && 0 <= i < l.len() && l[i] == '|' {
        strip_from(l, i + 1, k + 1, depth)
    } else if 0 <= i < l.len() && l[i] == ' ' {
        i + 1
    } else {
        i
    }
}

/// A multi-line string line without its indentation.
pub open spec fn strip_pipes(l: Seq<char>, depth: int) -> Seq<char> {
    l.subrange(strip_from(l, 0, 0, depth), l.len() as int)
}

/// The lines of a multi-line string body from `x`: the stripped lines (or
/// `None` when the input ends first) and the position after the scan.
pub open spec fn ml_lines(s: Seq<char>, x: int, depth: int, acc: Seq<Seq<char>>) -> (Option<Seq<Seq<char>>>, int)
    decreases s.len() - x,
{
    if x < 0 || x >= s.len() {
        (None, x)
    } else if closes_at(s, x, depth) {
        (Some(acc), pipe_scan(s, x, 0, depth).0 + 3)
    } else {
        proof { lemma_line_end(s, x); }
        ml_lines(s, next_line(s, x), depth, acc.push(strip_pipes(s.subrange(x, line_end(s, x)), depth)))
    }
}

/// Lines joined with newlines.
pub open spec fn join_lines(ls: Seq<Seq<char>>) -> Seq<char>
    decreases ls.len(),
{
    if ls.len() == 0 {
        seq![]
    } else if ls.len() == 1 {
        ls[0]
    } else {
        join_lines(ls.drop_last()) + seq!['\n'] + ls.last()
    }
}

/// The first position at or after `x` that holds neither a space, a tab
/// nor a pipe.
pub open spec fn blank_pipe_end(s: Seq<char>, x: int) -> int
    decreases s.len() - x,
{
    if 0 <= x < s.len() && (s[x] == ' ' || s[x] == '\t' || s[x] == '|') { blank_pipe_end(s, x + 1) } else { x }
}

/// Whether the line at `x` closes a multi-line string: after spaces, tabs
/// and pipes comes `"""`.
pub open spec fn closing_shaped(s: Seq<char>, x: int) -> bool {
    let e = blank_pipe_end(s, x);
    is_at(s, e, '"') && is_at(s, e + 1, '"') && is_at(s, e + 2, '"')
}

/// The start of the first closing line at or after the line start `x`,
/// or `-1` where there is none.
pub open spec fn first_close(s: Seq<char>, x: int) -> int
    decreases s.len() - x,
{
    if x < 0 || x >= s.len() {
        -1
    } else if closing_shaped(s, x) {
        x
    } else {
        proof { lemma_line_end(s, x); }
        first_close(s, next_line(s, x))
    }
}

/// The depth of a multi-line string whose body starts at `a`: the number
/// of pipes before its closing `"""` (0 where it is unterminated).
pub open spec fn close_depth(s: Seq<char>, a: int) -> int {
    let c = first_close(s, a);
    if c >= 0 { depth_count(s, c, 0) } else { 0 }
}

/// A multi-line string whose opening `"""` ends just before `q`. Its
/// depth is the number of pipes before its closing `"""`: up to that many
/// leading pipes are stripped from each content line, and pipes in excess
/// are kept as content.
pub open spec fn spec_multiline(s: Seq<char>, q: int) -> Step {
    let a = next_line(s, q);
    let depth = close_depth(s, a);
    let r = ml_lines(s, a, depth, seq![]);
    match r.0 {
        None => Step { tok: SToken::Error(loc_msg(s, q, "unterminated multiline string"@)), pos: r.1, avs: false },
        Some(ls) => match unescape(join_lines(ls), 0, seq![]) {
            Ok(t) => Step { tok: SToken::Str(t), pos: r.1, avs: false },
            Err(m) => Step { tok: SToken::Error(loc_msg(s, q, m)), pos: r.1, avs: false },
        },
    }
}

/// A quoted, empty or multi-line string starting at `p` (which holds `"`).
pub open spec fn spec_lex_string(s: Seq<char>, p: int) -> Step {
    if is_at(s, p + 1, '"') {
        if is_at(s, p + 2, '"') {
            spec_multiline(s, p + 3)
        } else {
            Step { tok: SToken::Str(seq![]), pos: p + 2, avs: false }
        }
    } else {
        match str_scan(s, p + 1, seq![]) {
            Scan::Done(t, n) => Step { tok: SToken::Str(t), pos: n, avs: false },
            Scan::Fail(m, n) => Step { tok: SToken::Error(loc_msg(s, p, m)), pos: n, avs: false },
        }
    }
}

fn scan_line_end(s: &Vec<char>, i: usize) -> (r: usize)
    requires
        i <= s.len(),
    ensures
        r == line_end(s@, i as int),
        i <= r <= s.len(),
{
    let mut j = i;
    while j < s.len() && s[j] != '\n'
        invariant
            i <= j <= s.len(),
            line_end(s@, j as int) == line_end(s@, i as int),
        decreases s.len() - j,
    {
        j = j + 1;
    }
    j
}

fn scan_next_line(s: &Vec<char>, i: usize) -> (r: usize)
    requires
        i <= s.len(),
    ensures
        r == next_line(s@, i as int),
        i <= r <= s.len(),
        i < s.len() ==> i < r,
{
    let e = scan_line_end(s, i);
    if e < s.len() {
        e + 1
    } else {
        e
    }
}

/// The depth of a multi-line string whose body starts at `a`.
fn scan_close_depth(s: &Vec<char>, a: usize) -> (r: usize)
    requires
        a <= s.len(),
    ensures
        r == close_depth(s@, a as int),
{
    let n = s.len();
    let mut x = a;
    while x < n
        invariant
            a <= x <= n,
            n == s.len(),
            first_close(s@, x as int) == first_close(s@, a as int),
        decreases n - x,
    {
        let mut e = x;
        while e < n && (s[e] == ' ' || s[e] == '\t' || s[e] == '|')
            invariant
                x <= e <= n,
                n == s.len(),
                blank_pipe_end(s@, e as int) == blank_pipe_end(s@, x as int),
            decreases n - e,
        {
            e = e + 1;
        }
        if e < n && n - e > 2 && s[e] == '"' && s[e + 1] == '"' && s[e + 2] == '"' {
            assert(closing_shaped(s@, x as int));
            return scan_depth(s, x);
        }
        proof { lemma_line_end(s@, x as int); }
        x = scan_next_line(s, x);
    }
    0
}

fn scan_depth(s: &Vec<char>, i: usize) -> (r: usize)
    requires
        i <= s.len(),
    ensures
        r == depth_count(s@, i as int, 0),
{
    let mut j = i;
    let mut d: usize = 0;
    while j < s.len() && (s[j] == ' ' || s[j] == '\t' || s[j] == '|')
        invariant
            i <= j <= s.len(),
            d <= j - i,
            depth_count(s@, j as int, d as int) == depth_count(s@, i as int, 0),
        decreases s.len() - j,
    {
        if s[j] == '|' {
            d = d + 1;
        }
        j = j + 1;
    }
    d
}

fn scan_pipes(s: &Vec<char>, i: usize, depth: usize) -> (r: (usize, usize))
    requires
        i <= s.len(),
    ensures
        r.0 as int == pipe_scan(s@, i as int, 0, depth as int).0,
        r.1 as int == pipe_scan(s@, i as int, 0, depth as int).1,
        i <= r.0 <= s.len(),
{
    let mut j = i;
    let mut k: usize = 0;
    while j < s.len() && (s[j] == ' ' || s[j] == '\t' || (s[j] == '|' && k < depth))
        invariant
            i <= j <= s.len(),
            k <= depth,
            pipe_scan(s@, j as int, k as int, depth as int) == pipe_scan(s@, i as int, 0, depth as int),
        decreases s.len() - j,
    {
        if s[j] == '|' {
            k = k + 1;
        }
        j = j + 1;
    }
    (j, k)
}

/// The characters `s[from..to]` without their indentation of `depth` pipes.
fn strip_leading_pipes(s: &Vec<char>, from: usize, to: usize, depth: usize) -> (r: Vec<char>)
    requires
        from <= to <= s.len(),
    ensures
        r@ == strip_pipes(s@.subrange(from as int, to as int), depth as int),
        r@.len() <= to - from,
{
    let ghost l = s@.subrange(from as int, to as int);
    let mut i = from;
    let mut k: usize = 0;
    while k < depth && i < to && (s[i] == ' ' || s[i] == '\t' || s[i] == '|')
        invariant
            from <= i <= to <= s.len(),
            k <= depth,
            l == s@.subrange(from as int, to as int),
            strip_from(l, i - from, k as int, depth as int) == strip_from(l, 0, 0, depth as int),
        decreases to - i,
    {
        assert(l[i - from] == s@[i as int]);
        if s[i] == '|' {
            k = k + 1;
        }
        i = i + 1;
    }
    if i < to && s[i] == ' ' {
        assert(l[i - from] == s@[i as int]);
        i = i + 1;
    } else {
        assert(i < to ==> l[i - from] == s@[i as int]);
    }
    assert(l.subrange(i - from, l.len() as int) =~= s@.subrange(i as int, to as int));
    sub_chars(s, i, to)
}

/// The view of a vector of lines.
pub open spec fn lines_view(v: Seq<Vec<char>>) -> Seq<Seq<char>> {
    v.map_values(|l: Vec<char>| l@)
}

fn join_line_vec(lines: &Vec<Vec<char>>) -> (r: Vec<char>)
    ensures
        r@ == join_lines(lines_view(lines@)),
{
    let mut out: Vec<char> = Vec::new();
    let mut i: usize = 0;
    while i < lines.len()
        invariant
            i <= lines.len(),
            out@ == join_lines(lines_view(lines@.subrange(0, i as int))),
        decreases lines.len() - i,
    {
        let ghost pre = lines_view(lines@.subrange(0, i as int));
        let ghost nxt = lines_view(lines@.subrange(0, i + 1));
        assert(nxt.drop_last() =~= pre);
        assert(nxt.last() == lines@[i as int]@);
        if i > 0 {
            out.push('\n');
        }
        extend_chars(&mut out, &lines[i]);
        i = i + 1;
        proof {
            if i == 1 {
                assert(pre.len() == 0);
                assert(out@ =~= nxt[0]);
            } else {
                assert(out@ =~= join_lines(pre) + seq!['\n'] + nxt.last());
            }
        }
    }
    assert(lines@.subrange(0, lines.len() as int) =~= lines@);
    out
}

impl Lexer {
    fn lex_multiline_string(&mut self) -> (r: Token)
        requires
            old(self).wf(),
            old(self).pos <= old(self).input@.len(),
        ensures
            final(self).wf(),
            final(self).input@ == old(self).input@,
            final(self).pos > old(self).pos || (final(self).pos == old(self).pos && old(self).pos == old(self).input@.len()),
            r@ == spec_multiline(old(self).input@, old(self).pos as int).tok,
            final(self).pos == spec_multiline(old(self).input@, old(self).pos as int).pos,
            final(self).after_value_start == spec_multiline(old(self).input@, old(self).pos as int).avs,
    {
        let ghost s = self.input@;
        let ghost q = self.pos as int;
        let n = self.input.len();
        let start_line = self.line;
        let start_col = self.col;
        self.after_value_start = false;
        let a = scan_next_line(&self.input, self.pos);
        let depth = scan_close_depth(&self.input, a);
        let mut lines: Vec<Vec<char>> = Vec::new();
        let mut x = a;
        let mut end: usize = 0;
        assert(lines_view(lines@) =~= Seq::<Seq<char>>::empty());
        loop
            invariant
                self.wf(),
                s == old(self).input@,
                q == old(self).pos,
                self.input@ == s,
                n == s.len(),
                self.pos == q,
                q <= a <= x <= n,
                a == next_line(s, q),
                depth == close_depth(s, a as int),
                !self.after_value_start,
                start_line == line_of(s, q),
                start_col == col_of(s, q),
                join_lines(lines_view(lines@)).len() <= x - a + 1,
                x < n ==> join_lines(lines_view(lines@)).len() <= x - a,
                ml_lines(s, x as int, depth as int, lines_view(lines@)) == ml_lines(s, a as int, depth as int, seq![]),
            ensures
                self.wf(),
                self.input@ == s,
                self.pos == q,
                !self.after_value_start,
                x < end <= n,
                join_lines(lines_view(lines@)).len() <= n + 1,
                ml_lines(s, a as int, depth as int, seq![]) == (Some(lines_view(lines@)), end as int),
            decreases n - x,
        {
            if x >= n {
                self.advance_to(x);
                return Token::Error(located(start_line, start_col, "unterminated multiline string"));
            }
            let (y, k) = scan_pipes(&self.input, x, depth);
            if k == depth && y + 2 < n && self.input[y] == '"' && self.input[y + 1] == '"'
                && self.input[y + 2] == '"' {
                end = y + 3;
                break;
            }
            proof { lemma_line_end(s, x as int); }
            let e = scan_line_end(&self.input, x);
            let stripped = strip_leading_pipes(&self.input, x, e, depth);
            let ghost before = lines_view(lines@);
            lines.push(stripped);
            let ghost after = lines_view(lines@);
            assert(after =~= before.push(strip_pipes(s.subrange(x as int, e as int), depth as int)));
            assert(after.drop_last() =~= before);
            assert(join_lines(after).len() <= join_lines(before).len() + 1 + (e - x)) by {
                assert(after.last() == stripped@);
            }
            assert(before.len() == 0 ==> join_lines(after).len() <= e - x) by {
                if before.len() == 0 {
                    assert(after.len() == 1);
                    assert(after[0] == stripped@);
                }
            }
            x = if e < n { e + 1 } else { e };
        }
        self.advance_to(end);
        let joined = join_line_vec(&lines);
        match process_str_escapes(&joined) {
            Ok(v) => Token::Str(string_from_chars(&v)),
            Err(m) => Token::Error(located_chars(start_line, start_col, &m)),
        }
    }

    fn lex_string(&mut self) -> (r: Token)
        requires
            old(self).wf(),
            is_at(old(self).input@, old(self).pos as int, '"'),
        ensures
            final(self).wf(),
            final(self).input@ == old(self).input@,
            final(self).pos > old(self).pos,
            r@ == spec_lex_string(old(self).input@, old(self).pos as int).tok,
            final(self).pos == spec_lex_string(old(self).input@, old(self).pos as int).pos,
            final(self).after_value_start == spec_lex_string(old(self).input@, old(self).pos as int).avs,
    {
        let ghost s = self.input@;
        let ghost p = self.pos as int;
        let n = self.input.len();
        self.after_value_start = false;
        let start_line = self.line;
        let start_col = self.col;
        self.advance();
        if self.peek() == Some('"') {
            self.advance();
            if self.peek() == Some('"') {
                self.advance();
                return self.lex_multiline_string();
            }
            return Token::Str(String::new());
        }
        let (res, k) = quoted_body(&self.input, self.pos);
        self.advance_to(k);
        match res {
            Ok(v) => Token::Str(string_from_chars(&v)),
            Err(m) => Token::Error(located_chars(start_line, start_col, &m)),
        }
    }
}

/// Scans the body of a quoted string from `from` (just after the opening
/// quote): the content and the position after the closing quote, or the
/// error message and the position the scan reached.
fn quoted_body(s: &Vec<char>, from: usize) -> (r: (Result<Vec<char>, Vec<char>>, usize))
    requires
        from <= s.len(),
        s.len() + 8 <= usize::MAX,
    ensures
        from <= r.1 <= s.len() + 1,
        match str_scan(s@, from as int, seq![]) {
            Scan::Done(c, n) => r.0 matches Ok(v) && v@ == c && r.1 == n,
            Scan::Fail(m, n) => r.0 matches Err(e) && e@ == m && r.1 == n,
        },
{
    let n = s.len();
    let mut out: Vec<char> = Vec::new();
    let mut i = from;
    loop
        invariant
            n == s.len(),
            n + 8 <= usize::MAX,
            from <= i <= n,
            str_scan(s@, i as int, out@) == str_scan(s@, from as int, seq![]),
        decreases n - i,
    {
        if i >= n {
            return (Err(chars_of("unterminated string")), i);
        }
        let c = s[i];
        if c == '"' {
            return (Ok(out), i + 1);
        } else if c == '\n' {
            return (Err(chars_of("unterminated string")), i);
        } else if c == '\\' {
            if i + 1 >= n {
                return (Err(chars_of("unterminated string")), i + 2);
            }
            proof { lemma_escape_step_advances(s@, i as int); }
            match escape_at(s, i) {
                EscOut::Char(x, k) => {
                    out.push(x);
                    i = k;
                },
                EscOut::Fail(m, k) => {
                    return (Err(m), k);
                },
            }
        } else {
            out.push(c);
            i = i + 1;
        }
    }
}


// ---------------------------------------------------------------------------
// The token stream
// ---------------------------------------------------------------------------

/// The outcome of one step of the lexer's main loop.
pub enum LexOut {
    /// A space or tab is skipped.
    Skip,
    /// A token is emitted.
    Emit(Step),
}

/// One step of the main loop at position `p` (which holds a character)
/// with bare-value flag `avs`.
pub open spec fn lex_step(s: Seq<char>, p: int, avs: bool) -> LexOut {
    let c = s[p];
    if c == ' ' || c == '\t' {
        LexOut::Skip
    } else if c == '\n' {
        LexOut::Emit(Step { tok: SToken::Newline, pos: p + 1, avs: false })
    } else if c == '|' {
        LexOut::Emit(Step { tok: SToken::Pipe, pos: p + 1, avs: avs })
    } else if c == '=' {
        LexOut::Emit(Step { tok: SToken::Equals, pos: p + 1, avs: true })
    } else if c == '~' {
        LexOut::Emit(Step { tok: SToken::Tilde, pos: p + 1, avs: avs })
    } else if c == '-' {
        if avs {
            LexOut::Emit(spec_bare_value(s, p))
        } else {
            LexOut::Emit(Step { tok: SToken::Dash, pos: p + 1, avs: true })
        }
    } else if c == '.' {
        if avs {
            LexOut::Emit(spec_bare_value(s, p))
        } else {
            LexOut::Emit(Step { tok: SToken::Dot, pos: p + 1, avs: avs })
        }
    } else if c == '#' {
        LexOut::Emit(spec_line_comment(s, p, avs))
    } else if c == '/' {
        if is_at(s, p + 1, '*') {
            LexOut::Emit(spec_block_comment(s, p, avs))
        } else if avs {
            LexOut::Emit(spec_bare_value(s, p))
        } else {
            LexOut::Emit(Step { tok: SToken::Unknown('/'), pos: p + 1, avs: avs })
        }
    } else if c == '"' {
        LexOut::Emit(spec_lex_string(s, p))
    } else if is_digit(c) {
        LexOut::Emit(spec_lex_number(s, p, avs))
    } else if is_alphabetic(c) || c == '_' {
        LexOut::Emit(spec_lex_ident(s, p, avs))
    } else if avs {
        LexOut::Emit(spec_bare_value(s, p))
    } else {
        LexOut::Emit(Step { tok: SToken::Unknown(c), pos: p + 1, avs: avs })
    }
}

/// The tokens of `s` from position `p` with bare-value flag `avs`, each
/// with the line and column of its first character. Every step moves
/// forward (`Lexer::tokenize` shows it: the result is always `Some`); a
/// step that did not would give `None`.
pub open spec fn tokenize_from(s: Seq<char>, p: int, avs: bool) -> Option<Seq<SSpanned>>
    decreases s.len() - p,
{
    if p < 0 || p >= s.len() {
        Some(seq![])
    } else {
        match lex_step(s, p, avs) {
            LexOut::Skip => tokenize_from(s, p + 1, avs),
            LexOut::Emit(st) => {
                if st.pos <= p {
                    None
                } else {
                    let here = SSpanned { tok: st.tok, line: line_of(s, p), col: col_of(s, p) };
                    let rest = if st.pos >= s.len() { Some(seq![]) } else { tokenize_from(s, st.pos, st.avs) };
                    match rest {
                        Some(r) => Some(seq![here] + r),
                        None => None,
                    }
                }
            },
        }
    }
}

/// The tokens of a whole source text; `None` where the lexer cannot go on.
pub open spec fn tokenize_spec(s: Seq<char>) -> Option<Seq<SSpanned>> {
    tokenize_from(s, 0, false)
}

/// `pre` followed by the tokens of `rest`, if any.
pub open spec fn prepend(pre: Seq<SSpanned>, rest: Option<Seq<SSpanned>>) -> Option<Seq<SSpanned>> {
    match rest {
        Some(r) => Some(pre + r),
        None => None,
    }
}

impl Lexer {
    fn lex_one(&mut self) -> (r: Token)
        requires
            old(self).wf(),
            old(self).pos < old(self).input@.len(),
            !(old(self).input@[old(self).pos as int] == ' ' || old(self).input@[old(self).pos as int] == '\t'),
        ensures
            final(self).wf(),
            final(self).input@ == old(self).input@,
            match lex_step(old(self).input@, old(self).pos as int, old(self).after_value_start) {
                LexOut::Emit(st) => r@ == st.tok && final(self).pos == st.pos
                    && final(self).after_value_start == st.avs && final(self).pos > old(self).pos,
                LexOut::Skip => false,
            },
    {
        let n = self.input.len();
        let c = self.input[self.pos];
        if c == '\n' {
            self.after_value_start = false;
            self.advance();
            Token::Newline
        } else if c == '|' {
            self.advance();
            Token::Pipe
        } else if c == '=' {
            self.after_value_start = true;
            self.advance();
            Token::Equals
        } else if c == '~' {
            self.advance();
            Token::Tilde
        } else if c == '-' {
            if self.after_value_start {
                self.consume_bare_value()
            } else {
                self.advance();
                self.after_value_start = true;
                Token::Dash
            }
        } else if c == '.' {
            if self.after_value_start {
                self.consume_bare_value()
            } else {
                self.advance();
                Token::Dot
            }
        } else if c == '#' {
            self.skip_line_comment()
        } else if c == '/' {
            if self.pos + 1 < n && self.input[self.pos + 1] == '*' {
                self.skip_block_comment()
            } else if self.after_value_start {
                self.consume_bare_value()
            } else {
                self.advance();
                Token::Unknown('/')
            }
        } else if c == '"' {
            self.lex_string()
        } else if exec_is_digit(c) {
            self.lex_number()
        } else if char_is_alphabetic(c) || c == '_' {
            let _ = char_is_alphanumeric(c);
            self.lex_ident_or_keyword()
        } else if self.after_value_start {
            self.consume_bare_value()
        } else {
            self.advance();
            Token::Unknown(c)
        }
    }

    fn lex_all(&mut self) -> (r: Vec<SpannedToken>)
        requires
            old(self).wf(),
        ensures
            final(self).wf(),
            final(self).input@ == old(self).input@,
            tokenize_from(old(self).input@, old(self).pos as int, old(self).after_value_start)
                == Some(tokens_view(r@)),
    {
        let ghost s = self.input@;
        let ghost target = tokenize_from(s, self.pos as int, self.after_value_start);
        let mut tokens: Vec<SpannedToken> = Vec::new();
        assert(tokens_view(tokens@) =~= Seq::<SSpanned>::empty());
        assert(prepend(seq![], target) =~~= target);
        while !self.is_at_end()
            invariant
                self.wf(),
                self.input@ == s,
                s == old(self).input@,
                target == tokenize_from(s, old(self).pos as int, old(self).after_value_start),
                prepend(tokens_view(tokens@), tokenize_from(s, self.pos as int, self.after_value_start)) == target,
            decreases s.len() + 1 - self.pos,
        {
            let ghost p = self.pos as int;
            let ghost avs = self.after_value_start;
            let line = self.line;
            let col = self.col;
            let c = self.input[self.pos];
            if c == ' ' || c == '\t' {
                self.advance();
            } else {
                let tok = self.lex_one();
                let ghost before = tokens_view(tokens@);
                let ghost here = SSpanned { tok: tok@, line: line as int, col: col as int };
                tokens.push((tok, line, col));
                proof {
                    assert(tokens_view(tokens@) =~= before.push(here));
                    let rest = if self.pos >= s.len() {
                        Some(Seq::<SSpanned>::empty())
                    } else {
                        tokenize_from(s, self.pos as int, self.after_value_start)
                    };
                    if self.pos >= s.len() {
                        assert(tokenize_from(s, self.pos as int, self.after_value_start) == Some(Seq::<SSpanned>::empty()));
                    }
                    assert(tokenize_from(s, p, avs) == prepend(seq![here], rest));
                    match rest {
                        Some(r) => {
                            assert(before + (seq![here] + r) =~= before.push(here) + r);
                        },
                        None => {},
                    }
                }
            }
        }
        assert(tokenize_from(s, self.pos as int, self.after_value_start) == Some(Seq::<SSpanned>::empty()));
        assert(tokens_view(tokens@) + Seq::<SSpanned>::empty() =~= tokens_view(tokens@));
        tokens
    }

    /// Tokenizes the entire input and returns the spanned tokens, in source
    /// order, comments and error tokens included.
    pub fn tokenize(&mut self) -> (r: Vec<SpannedToken>)
        requires
            old(self).wf(),
        ensures
            final(self).wf(),
            final(self).text() == old(self).text(),
            Some(tokens_view(r@)) == tokenize_from(old(self).text(), old(self).position(), old(self).bare_value_state()),
            r@.len() <= old(self).text().len(),
    {
        proof {
            lemma_tokenize_len(self.text(), self.position(), self.bare_value_state());
        }
        self.lex_all()
    }
}
} // verus!

verus! {

/// Every token takes at least one character: there are at most as many
/// tokens as characters left.
pub proof fn lemma_tokenize_len(s: Seq<char>, p: int, avs: bool)
    requires
        0 <= p,
    ensures
        tokenize_from(s, p, avs) matches Some(ts) ==> ts.len() <= if p < s.len() { s.len() - p } else { 0 },
    decreases s.len() - p,
{
    if p < s.len() {
        match lex_step(s, p, avs) {
            LexOut::Skip => {
                lemma_tokenize_len(s, p + 1, avs);
            },
            LexOut::Emit(st) => {
                if st.pos > p && st.pos < s.len() {
                    lemma_tokenize_len(s, st.pos, st.avs);
                }
            },
        }
    }
}

/// The token `t` stands at position `q` of `s`: a character that is not a
/// space or a tab, whose line and column the token carries.
pub open spec fn at_char(t: SSpanned, s: Seq<char>, q: int) -> bool {
    0 <= q < s.len() && s[q] != ' ' && s[q] != '\t' && t.line == line_of(s, q) && t.col == col_of(s, q)
}

/// The tokens `ts` stand at the positions `qs`, increasing and at or after `lo`.
pub open spec fn placed_at(ts: Seq<SSpanned>, s: Seq<char>, lo: int, qs: Seq<int>) -> bool {
    &&& qs.len() == ts.len()
    &&& forall|k: int| 0 <= k < ts.len() ==> lo <= #[trigger] qs[k] && at_char(ts[k], s, qs[k])
    &&& forall|j: int, k: int| 0 <= j < k < ts.len() ==> #[trigger] qs[j] < #[trigger] qs[k]
}

/// The tokens `ts` stand at increasing positions, each at or after `lo`.
pub open spec fn placed(ts: Seq<SSpanned>, s: Seq<char>, lo: int) -> bool {
    exists|qs: Seq<int>| #[trigger] placed_at(ts, s, lo, qs)
}

proof fn lemma_placed_prepend(s: Seq<char>, p: int, here: SSpanned, rest: Seq<SSpanned>, lo: int)
    requires
        at_char(here, s, p),
        p < lo,
        placed(rest, s, lo),
    ensures
        placed(seq![here] + rest, s, p),
{
    let rq = choose|qs: Seq<int>| #[trigger] placed_at(rest, s, lo, qs);
    let ts = seq![here] + rest;
    let qs = seq![p] + rq;
    assert forall|k: int| 0 <= k < ts.len() implies p <= #[trigger] qs[k] && at_char(ts[k], s, qs[k]) by {
        if k > 0 {
            assert(ts[k] == rest[k - 1]);
            assert(qs[k] == rq[k - 1]);
            assert(lo <= rq[k - 1]);
        }
    }
    assert forall|j: int, k: int| 0 <= j < k < ts.len() implies #[trigger] qs[j] < #[trigger] qs[k] by {
        assert(qs[k] == rq[k - 1]);
        assert(lo <= rq[k - 1]);
        if j > 0 {
            assert(qs[j] == rq[j - 1]);
        }
    }
    assert(placed_at(ts, s, p, qs));
}

/// Each token's line and column are those of its first character: the
/// tokens lexed from position `p` stand at increasing positions at or
/// after `p`, each at a character that is not a space or a tab.
pub proof fn law_token_positions(s: Seq<char>, p: int, avs: bool)
    requires
        0 <= p,
    ensures
        tokenize_from(s, p, avs) matches Some(ts) ==> placed(ts, s, p),
    decreases s.len() - p,
{
    if p < s.len() {
        match lex_step(s, p, avs) {
            LexOut::Skip => {
                law_token_positions(s, p + 1, avs);
                if tokenize_from(s, p, avs) is Some {
                    let ts = tokenize_from(s, p, avs).unwrap();
                    let qs = choose|qs: Seq<int>| #[trigger] placed_at(ts, s, p + 1, qs);
                    assert(placed_at(ts, s, p, qs));
                }
            },
            LexOut::Emit(st) => {
                if st.pos > p {
                    let here = SSpanned { tok: st.tok, line: line_of(s, p), col: col_of(s, p) };
                    assert(at_char(here, s, p));
                    if st.pos >= s.len() {
                        let e: Seq<SSpanned> = seq![];
                        let eq: Seq<int> = seq![];
                        assert(placed_at(e, s, st.pos, eq));
                        lemma_placed_prepend(s, p, here, e, st.pos);
                        assert(seq![here] + e =~= seq![here]);
                    } else {
                        law_token_positions(s, st.pos, st.avs);
                        if tokenize_from(s, st.pos, st.avs) is Some {
                            lemma_placed_prepend(s, p, here, tokenize_from(s, st.pos, st.avs).unwrap(), st.pos);
                        }
                    }
                }
            },
        }
    } else {
        let e: Seq<SSpanned> = seq![];
        let eq: Seq<int> = seq![];
        assert(placed_at(e, s, p, eq));
    }
}

/// The number of pipes in `t`.
pub open spec fn count_pipes(t: Seq<char>) -> int
    decreases t.len(),
{
    if t.len() == 0 { 0 } else { (if t[0] == '|' { 1int } else { 0int }) + count_pipes(t.drop_first()) }
}

proof fn lemma_strip_from(l: Seq<char>, i: int, k: int, depth: int)
    requires
        0 <= i <= l.len(),
        0 <= k <= depth,
    ensures
        i <= strip_from(l, i, k, depth) <= l.len(),
        forall|j: int| i <= j < strip_from(l, i, k, depth) ==> l[j] == ' ' || l[j] == '\t' || l[j] == '|',
        count_pipes(l.subrange(i, strip_from(l, i, k, depth))) <= depth - k,
    decreases l.len() - i,
{
    let r = strip_from(l, i, k, depth);
    if k < depth && i < l.len() && (l[i] == ' ' || l[i] == '\t') {
        lemma_strip_from(l, i + 1, k, depth);
        assert(l.subrange(i, r).drop_first() =~= l.subrange(i + 1, r));
        assert(l.subrange(i, r)[0] == l[i]);
    } else if k < depth && i < l.len() && l[i] == '|' {
        lemma_strip_from(l, i + 1, k + 1, depth);
        assert(l.subrange(i, r).drop_first() =~= l.subrange(i + 1, r));
        assert(l.subrange(i, r)[0] == l[i]);
    } else if i < l.len() && l[i] == ' ' {
        let u = l.subrange(i, i + 1);
        assert(u[0] == ' ');
        assert(u.drop_first().len() == 0);
        assert(count_pipes(u.drop_first()) == 0);
        assert(count_pipes(u) == 0);
    } else {
        assert(l.subrange(i, i).len() == 0);
    }
}

proof fn lemma_depth_count_shift(s: Seq<char>, x: int, d: int)
    requires
        0 <= x,
    ensures
        depth_count(s, x, d) == d + depth_count(s, x, 0),
        depth_count(s, x, 0) >= 0,
    decreases s.len() - x,
{
    if 0 <= x < s.len() && (s[x] == ' ' || s[x] == '\t') {
        lemma_depth_count_shift(s, x + 1, d);
        lemma_depth_count_shift(s, x + 1, 0);
    } else if 0 <= x < s.len() && s[x] == '|' {
        lemma_depth_count_shift(s, x + 1, d + 1);
        lemma_depth_count_shift(s, x + 1, 1);
    }
}

proof fn lemma_strip_count(l: Seq<char>, i: int, k: int, depth: int)
    requires
        0 <= i <= l.len(),
        0 <= k <= depth,
    ensures
        count_pipes(l.subrange(i, strip_from(l, i, k, depth)))
            == if depth - k <= depth_count(l, i, 0) { depth - k } else { depth_count(l, i, 0) },
    decreases l.len() - i,
{
    lemma_strip_from(l, i, k, depth);
    lemma_depth_count_shift(l, i, 0);
    lemma_depth_count_shift(l, i + 1, 0);
    let r = strip_from(l, i, k, depth);
    if k < depth && i < l.len() && (l[i] == ' ' || l[i] == '\t') {
        lemma_strip_count(l, i + 1, k, depth);
        lemma_strip_from(l, i + 1, k, depth);
        assert(l.subrange(i, r).drop_first() =~= l.subrange(i + 1, r));
        assert(l.subrange(i, r)[0] == l[i]);
    } else if k < depth && i < l.len() && l[i] == '|' {
        lemma_strip_count(l, i + 1, k + 1, depth);
        lemma_strip_from(l, i + 1, k + 1, depth);
        lemma_depth_count_shift(l, i + 1, 1);
        assert(l.subrange(i, r).drop_first() =~= l.subrange(i + 1, r));
        assert(l.subrange(i, r)[0] == l[i]);
    } else if i < l.len() && l[i] == ' ' {
        let u = l.subrange(i, i + 1);
        assert(u[0] == ' ');
        assert(u.drop_first().len() == 0);
        assert(count_pipes(u.drop_first()) == 0);
        assert(count_pipes(u) == 0);
    } else {
        assert(l.subrange(i, i).len() == 0);
    }
}

/// Stripping the indentation of a multi-line string line removes only a
/// prefix made of spaces, tabs and pipes, holding exactly `min(depth, k)`
/// pipes where `k` is the number of pipes among the line's leading spaces,
/// tabs and pipes; the rest of the line is kept as it is.
pub proof fn law_strip_pipes_removes_indentation(l: Seq<char>, depth: int)
    requires
        0 <= depth,
    ensures
        strip_pipes(l, depth).len() <= l.len(),
        strip_pipes(l, depth) == l.subrange(l.len() - strip_pipes(l, depth).len(), l.len() as int),
        forall|j: int| 0 <= j < l.len() - strip_pipes(l, depth).len() ==> l[j] == ' ' || l[j] == '\t' || l[j] == '|',
        count_pipes(l.subrange(0, l.len() - strip_pipes(l, depth).len()))
            == if depth <= depth_count(l, 0, 0) { depth } else { depth_count(l, 0, 0) },
{
    lemma_strip_from(l, 0, 0, depth);
    lemma_strip_count(l, 0, 0, depth);
}

/// Text that a quoted string holds as it is: no quote, backslash or newline.
pub open spec fn plain_quoted(c: Seq<char>) -> bool {
    forall|j: int| 0 <= j < c.len() ==> c[j] != '"' && c[j] != '\\' && c[j] != '\n'
}

proof fn lemma_scan_plain(c: Seq<char>, i: int)
    requires
        plain_quoted(c),
        1 <= i <= c.len() + 1,
    ensures
        str_scan(seq!['"'] + c + seq!['"'], i, c.subrange(0, i - 1)) == (Scan::Done(c, c.len() + 2int)),
    decreases c.len() + 1 - i,
{
    let s = seq!['"'] + c + seq!['"'];
    if i == c.len() + 1 {
        assert(s[i] == '"');
        assert(c.subrange(0, i - 1) =~= c);
    } else {
        assert(s[i] == c[i - 1]);
        lemma_scan_plain(c, i + 1);
        assert(c.subrange(0, i - 1).push(s[i]) =~= c.subrange(0, i));
    }
}

/// A quoted string whose text holds no quote, backslash or newline is read
/// as exactly that text: on its own, `"c"` lexes to one string token `c`
/// at line 1, column 1.
pub proof fn law_plain_quoted_string(c: Seq<char>)
    requires
        plain_quoted(c),
    ensures
        spec_lex_string(seq!['"'] + c + seq!['"'], 0) == (Step { tok: SToken::Str(c), pos: c.len() + 2int, avs: false }),
        tokenize_from(seq!['"'] + c + seq!['"'], 0, false)
            == Some(seq![(SSpanned { tok: SToken::Str(c), line: 1, col: 1 })]),
{
    let s = seq!['"'] + c + seq!['"'];
    assert(s[0] == '"');
    if c.len() == 0 {
        assert(s.len() == 2);
        assert(c =~= Seq::<char>::empty());
    } else {
        assert(s[1] == c[0]);
        lemma_scan_plain(c, 1);
        assert(c.subrange(0, 0) =~= Seq::<char>::empty());
    }
    assert(count_nl(s, 0) == 0);
    assert(line_start(s, 0) == 0);
    assert(lex_step(s, 0, false) == LexOut::Emit(spec_lex_string(s, 0)));
}

/// Whether the position `(l1, c1)` comes before `(l2, c2)`: an earlier line,
/// or the same line and an earlier column.
pub open spec fn pos_before(l1: int, c1: int, l2: int, c2: int) -> bool {
    l1 < l2 || (l1 == l2 && c1 < c2)
}

proof fn lemma_positions_increase(s: Seq<char>, q1: int, q2: int)
    requires
        0 <= q1 < q2 < s.len(),
    ensures
        pos_before(line_of(s, q1), col_of(s, q1), line_of(s, q2), col_of(s, q2)),
    decreases q2 - q1,
{
    lemma_line_col_step(s, q2 - 1);
    if q2 > q1 + 1 {
        lemma_positions_increase(s, q1, q2 - 1);
    }
}

/// The tokens of a whole input carry lines and columns of at least 1, and
/// their `(line, column)` pairs strictly increase along the token stream.
pub proof fn law_token_order(s: Seq<char>)
    ensures
        tokenize_from(s, 0, false) matches Some(ts) ==> {
            &&& forall|k: int| 0 <= k < ts.len() ==> 1 <= #[trigger] ts[k].line && 1 <= ts[k].col
            &&& forall|j: int, k: int| 0 <= j < k < ts.len() ==>
                pos_before(#[trigger] ts[j].line, ts[j].col, #[trigger] ts[k].line, ts[k].col)
        },
{
    law_token_positions(s, 0, false);
    if tokenize_from(s, 0, false) is Some {
        let ts = tokenize_from(s, 0, false).unwrap();
        let qs = choose|qs: Seq<int>| #[trigger] placed_at(ts, s, 0, qs);
        assert forall|k: int| 0 <= k < ts.len() implies 1 <= #[trigger] ts[k].line && 1 <= ts[k].col by {
            assert(at_char(ts[k], s, qs[k]));
            lemma_line_col_bounds(s, qs[k]);
        }
        assert forall|j: int, k: int| 0 <= j < k < ts.len() implies
            pos_before(#[trigger] ts[j].line, ts[j].col, #[trigger] ts[k].line, ts[k].col) by {
            assert(qs[j] < qs[k]);
            assert(at_char(ts[j], s, qs[j]));
            assert(at_char(ts[k], s, qs[k]));
            lemma_positions_increase(s, qs[j], qs[k]);
        }
    }
}

} // verus!
