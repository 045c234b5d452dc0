use vstd::prelude::*;

pub use crate::token::{Keyword, LexerError, Op, Token, TokenView};
use crate::token::{op_of_char, op_of_text};

verus! {

// ----- character classes -----

pub open spec fn is_space(c: char) -> bool {
    c == ' ' || c == '\t' || c == '\n'
}

pub open spec fn is_digit(c: char) -> bool {
    '0' <= c <= '9'
}

pub open spec fn is_word_start(c: char) -> bool {
    ('a' <= c <= 'z') || ('A' <= c <= 'Z') || c == '_'
}

pub open spec fn is_word_char(c: char) -> bool {
    is_word_start(c) || is_digit(c)
}

/// The code of `c` with ASCII upper case folded to lower case.
pub open spec fn fold_code(c: char) -> u32 {
    if 'A' <= c <= 'Z' {
        (c as u32 + 32) as u32
    } else {
        c as u32
    }
}

/// `w` and `k` are the same text up to ASCII case.
pub open spec fn same_folded(w: Seq<char>, k: Seq<char>) -> bool {
    &&& w.len() == k.len()
    &&& forall|i: int| 0 <= i < w.len() ==> fold_code(#[trigger] w[i]) == fold_code(k[i])
}

/// The token that a bare word stands for: a keyword or an operator word,
/// compared without regard to case, and otherwise the word itself as a
/// literal. No rule produces `Identifier` yet: an unmatched word stays a
/// literal until the grammar says what an identifier is.
pub open spec fn word_token(w: Seq<char>) -> TokenView {
    if same_folded(w, seq!['s', 'e', 'l', 'e', 'c', 't']) {
        TokenView::Keyword(Keyword::Select)
    } else if same_folded(w, seq!['a', 'n', 'd']) {
        TokenView::Operator(Op::And)
    } else if same_folded(w, seq!['o', 'r']) {
        TokenView::Operator(Op::Or)
    } else if same_folded(w, seq!['n', 'o', 't']) {
        TokenView::Operator(Op::Not)
    } else {
        TokenView::Literal(w)
    }
}

// ----- where each kind of token ends -----

/// End (exclusive) of a quoted string whose body starts at `i`: just past the
/// first closing quote that no backslash escapes, or the end of the input.
pub open spec fn string_end(s: Seq<char>, i: int, escaped: bool) -> int
    decreases s.len() - i,
{
    if i < 0 || i >= s.len() {
        s.len() as int
    } else if escaped {
        string_end(s, i + 1, false)
    } else if s[i] == '\\' {
        string_end(s, i + 1, true)
    } else if s[i] == '"' {
        i + 1
    } else {
        string_end(s, i + 1, false)
    }
}

/// End of a numeral continued at `i`: digits, and one `.` unless `dotted`.
pub open spec fn number_end(s: Seq<char>, i: int, dotted: bool) -> int
    decreases s.len() - i,
{
    if 0 <= i < s.len() && (is_digit(s[i]) || (s[i] == '.' && !dotted)) {
        number_end(s, i + 1, dotted || s[i] == '.')
    } else {
        i
    }
}

/// End of a word continued at `i`.
pub open spec fn word_end(s: Seq<char>, i: int) -> int
    decreases s.len() - i,
{
    if 0 <= i < s.len() && is_word_char(s[i]) {
        word_end(s, i + 1)
    } else {
        i
    }
}

/// End of a comment continued at `i`: the next newline, or the end of the input.
pub open spec fn comment_end(s: Seq<char>, i: int) -> int
    decreases s.len() - i,
{
    if 0 <= i < s.len() && s[i] != '\n' {
        comment_end(s, i + 1)
    } else {
        i
    }
}

/// Whether the operator led by `c` at `i` takes the next character too.
pub open spec fn takes_second(s: Seq<char>, i: int) -> bool {
    i + 1 < s.len() && (s[i + 1] == '=' || (s[i] == '<' && s[i + 1] == '>'))
}

/// One step of the scan at position `i` (`0 <= i < s.len()`): the token
/// emitted, if any, and the position after it; or the error that stops the scan.
pub open spec fn scan_step(s: Seq<char>, i: int) -> Result<(Option<TokenView>, int), LexerError> {
    let c = s[i];
    if is_space(c) {
        Ok((None, i + 1))
    } else if c == '"' {
        let e = string_end(s, i + 1, false);
        Ok((Some(TokenView::Literal(s.subrange(i, e))), e))
    } else if is_digit(c) {
        let e = number_end(s, i + 1, false);
        Ok((Some(TokenView::Number(s.subrange(i, e))), e))
    } else if is_word_start(c) {
        let e = word_end(s, i + 1);
        Ok((Some(word_token(s.subrange(i, e))), e))
    } else if c == '#' {
        let e = comment_end(s, i + 1);
        Ok((Some(TokenView::Comment(s.subrange(i, e))), e))
    } else if op_of_char(c) is Some {
        Ok((Some(TokenView::Operator(op_of_char(c)->0)), i + 1))
    } else if c == '!' || c == '<' || c == '>' {
        let e = if takes_second(s, i) { i + 2 } else { i + 1 };
        match op_of_text(s.subrange(i, e)) {
            Some(o) => Ok((Some(TokenView::Operator(o)), e)),
            None => Err(LexerError::UnrecognizedToken),
        }
    } else {
        Err(LexerError::UnrecognizedToken)
    }
}


// ----- the whole scan -----

/// The token list, or the first error, of a scan of `s` from position `i`.
pub open spec fn lex_from(s: Seq<char>, i: int) -> Result<Seq<TokenView>, LexerError>
    decreases s.len() - i,
    via lex_from_decreases
{
    if i < 0 || i >= s.len() {
        Ok(Seq::empty())
    } else {
        match scan_step(s, i) {
            Err(e) => Err(e),
            Ok((t, j)) => prepend(t, lex_from(s, j)),
        }
    }
}

/// The token list, or the first error, of a scan of the whole input.
pub open spec fn lex(s: Seq<char>) -> Result<Seq<TokenView>, LexerError> {
    lex_from(s, 0)
}

/// `r` with the token `t` (if any) put in front of its list.
pub open spec fn prepend(t: Option<TokenView>, r: Result<Seq<TokenView>, LexerError>) -> Result<
    Seq<TokenView>,
    LexerError,
> {
    match r {
        Err(e) => Err(e),
        Ok(ts) => match t {
            Some(x) => Ok(seq![x] + ts),
            None => Ok(ts),
        },
    }
}

#[via_fn]
proof fn lex_from_decreases(s: Seq<char>, i: int) {
    if 0 <= i < s.len() {
        lemma_step_advances(s, i);
    }
}

// ----- bounds of the scan -----

proof fn lemma_string_end(s: Seq<char>, i: int, escaped: bool)
    requires
        0 <= i <= s.len(),
    ensures
        i <= string_end(s, i, escaped) <= s.len(),
    decreases s.len() - i,
{
    if i < s.len() {
        lemma_string_end(s, i + 1, false);
        lemma_string_end(s, i + 1, true);
    }
}

proof fn lemma_number_end(s: Seq<char>, i: int, dotted: bool)
    requires
        0 <= i <= s.len(),
    ensures
        i <= number_end(s, i, dotted) <= s.len(),
    decreases s.len() - i,
{
    if i < s.len() {
        lemma_number_end(s, i + 1, dotted || s[i] == '.');
    }
}

proof fn lemma_word_end(s: Seq<char>, i: int)
    requires
        0 <= i <= s.len(),
    ensures
        i <= word_end(s, i) <= s.len(),
    decreases s.len() - i,
{
    if i < s.len() {
        lemma_word_end(s, i + 1);
    }
}

proof fn lemma_comment_end(s: Seq<char>, i: int)
    requires
        0 <= i <= s.len(),
    ensures
        i <= comment_end(s, i) <= s.len(),
    decreases s.len() - i,
{
    if i < s.len() {
        lemma_comment_end(s, i + 1);
    }
}

/// Each step consumes at least one character and stays within the input.
pub proof fn lemma_step_advances(s: Seq<char>, i: int)
    requires
        0 <= i < s.len(),
    ensures
        scan_step(s, i) matches Ok((_, j)) ==> i < j <= s.len(),
{
    lemma_string_end(s, i + 1, false);
    lemma_number_end(s, i + 1, false);
    lemma_word_end(s, i + 1);
    lemma_comment_end(s, i + 1);
}

// ----- the lexer -----

/// A lexer over an owned copy of one query text.
pub struct Lexer {
    input: String,
    chars: Vec<char>,
}

impl View for Lexer {
    type V = Seq<char>;

    closed spec fn view(&self) -> Seq<char> {
        self.input@
    }
}

impl Lexer {
    #[verifier::type_invariant]
    spec fn inv(&self) -> bool {
        self.chars@ == self.input@
    }

    pub fn new(input: &str) -> (l: Lexer)
        ensures
            l@ == input@,
    {
        let mut chars: Vec<char> = Vec::new();
        let it = input.chars();
        for c in iter: it
            invariant
                iter.seq() == input@,
                chars@ == iter.seq().take(iter.index() as int),
        {
            chars.push(c);
        }
        assert(chars@ =~= input@);
        Lexer { input: input.to_owned(), chars }
    }

    /// One step of the scan at `pos`: the token found there (none for
    /// whitespace) and the position just after it, or the error that stops
    /// the scan.
    pub fn scan_token(&self, pos: usize) -> (r: Result<(Option<Token>, usize), LexerError>)
        requires
            pos < self@.len(),
        ensures
            match r {
                Ok((t, j)) => scan_step(self@, pos as int) == Ok::<_, LexerError>(
                    (opt_view(t), j as int),
                ),
                Err(e) => scan_step(self@, pos as int) == Err::<(Option<TokenView>, int), _>(e),
            },
    {
        proof {
            use_type_invariant(self);
        }
        let s = Ghost(self@);
        let n: usize = self.chars.len();
        let c = self.chars[pos];
        if c == ' ' || c == '\t' || c == '\n' {
            Ok((None, pos + 1))
        } else if c == '"' {
            let e: usize = self.string_end(pos + 1);
            proof {
                lemma_string_end(s@, pos + 1, false);
            }
            Ok((Some(Token::Literal(self.text(pos, e))), e))
        } else if '0' <= c && c <= '9' {
            let e: usize = self.number_end(pos + 1);
            proof {
                lemma_number_end(s@, pos + 1, false);
            }
            Ok((Some(Token::Number(self.text(pos, e))), e))
        } else if ('a' <= c && c <= 'z') || ('A' <= c && c <= 'Z') || c == '_' {
            let e: usize = self.word_end(pos + 1);
            proof {
                lemma_word_end(s@, pos + 1);
            }
            Ok((Some(self.word_token(pos, e)), e))
        } else if c == '#' {
            let e: usize = self.comment_end(pos + 1);
            proof {
                lemma_comment_end(s@, pos + 1);
            }
            Ok((Some(Token::Comment(self.text(pos, e))), e))
        } else if c == '+' || c == '-' || c == '*' || c == '/' || c == ':' || c == '=' || c == ','
            || c == '(' || c == ')' {
            match Op::from_char(c) {
                Some(o) => Ok((Some(Token::Operator(o)), pos + 1)),
                None => Err(LexerError::UnrecognizedToken),
            }
        } else if c == '!' || c == '<' || c == '>' {
            let mut e: usize = pos + 1;
            if pos + 1 < n {
                let d = self.chars[pos + 1];
                if d == '=' || (c == '<' && d == '>') {
                    e = pos + 2;
                }
            }
            let op_text = self.input.as_str().substring_char(pos, e);
            match Op::from_str(op_text) {
                Some(o) => Ok((Some(Token::Operator(o)), e)),
                None => Err(LexerError::UnrecognizedToken),
            }
        } else {
            Err(LexerError::UnrecognizedToken)
        }
    }

    /// Scans the whole input: every token in source order, or the first error.
    pub fn tokenize(&self) -> (r: Result<Vec<Token>, LexerError>)
        ensures
            match r {
                Ok(v) => lex(self@) == Ok::<_, LexerError>(views(v@)),
                Err(e) => lex(self@) == Err::<Seq<TokenView>, _>(e),
            },
            self@.len() == 0 ==> (r matches Ok(v) && v@.len() == 0),
    {
        proof {
            use_type_invariant(self);
        }
        let n: usize = self.chars.len();
        let mut tokens: Vec<Token> = Vec::new();
        let mut i: usize = 0;
        while i < n
            invariant
                i <= n,
                n == self@.len(),
                lex(self@) == append_to(views(tokens@), lex_from(self@, i as int)),
            decreases n - i,
        {
            let step = self.scan_token(i);
            proof {
                lemma_step_advances(self@, i as int);
            }
            match step {
                Err(e) => {
                    return Err(e);
                },
                Ok((t, j)) => {
                    let ghost before = views(tokens@);
                    let ghost rest = lex_from(self@, j as int);
                    match t {
                        Some(x) => {
                            tokens.push(x);
                            proof {
                                assert(views(tokens@) =~= before + seq![x@]);
                                if let Ok(ts) = rest {
                                    assert(before + (seq![x@] + ts) =~= (before + seq![x@])
                                        + ts);
                                }
                            }
                        },
                        None => {},
                    }
                    i = j;
                },
            }
        }
        assert(views(tokens@) + Seq::empty() =~= views(tokens@));
        Ok(tokens)
    }

    /// The input's characters from `a` to `b`, as a string.
    fn text(&self, a: usize, b: usize) -> (r: String)
        requires
            a <= b <= self@.len(),
        ensures
            r@ == self@.subrange(a as int, b as int),
    {
        self.input.as_str().substring_char(a, b).to_owned()
    }

    fn string_end(&self, start: usize) -> (e: usize)
        requires
            start <= self@.len(),
        ensures
            e == string_end(self@, start as int, false),
    {
        proof {
            use_type_invariant(self);
        }
        let n: usize = self.chars.len();
        let mut j: usize = start;
        let mut escaped = false;
        let mut closed = false;
        while j < n && !closed
            invariant
                start <= j <= n,
                n == self@.len(),
                self.chars@ == self@,
                closed ==> string_end(self@, start as int, false) == j,
                !closed ==> string_end(self@, start as int, false) == string_end(
                    self@,
                    j as int,
                    escaped,
                ),
            decreases n - j,
        {
            let c = self.chars[j];
            if escaped {
                escaped = false;
            } else if c == '\\' {
                escaped = true;
            } else if c == '"' {
                closed = true;
            }
            j = j + 1;
        }
        j
    }

    fn number_end(&self, start: usize) -> (e: usize)
        requires
            start <= self@.len(),
        ensures
            e == number_end(self@, start as int, false),
    {
        proof {
            use_type_invariant(self);
        }
        let n: usize = self.chars.len();
        let mut j: usize = start;
        let mut dotted = false;
        while j < n && (('0' <= self.chars[j] && self.chars[j] <= '9') || (self.chars[j] == '.'
            && !dotted))
            invariant
                start <= j <= n,
                n == self@.len(),
                self.chars@ == self@,
                number_end(self@, start as int, false) == number_end(self@, j as int, dotted),
            decreases n - j,
        {
            if self.chars[j] == '.' {
                dotted = true;
            }
            j = j + 1;
        }
        j
    }

    fn word_end(&self, start: usize) -> (e: usize)
        requires
            start <= self@.len(),
        ensures
            e == word_end(self@, start as int),
    {
        proof {
            use_type_invariant(self);
        }
        let n: usize = self.chars.len();
        let mut j: usize = start;
        while j < n && (('a' <= self.chars[j] && self.chars[j] <= 'z') || ('A' <= self.chars[j]
            && self.chars[j] <= 'Z') || ('0' <= self.chars[j] && self.chars[j] <= '9')
            || self.chars[j] == '_')
            invariant
                start <= j <= n,
                n == self@.len(),
                self.chars@ == self@,
                word_end(self@, start as int) == word_end(self@, j as int),
            decreases n - j,
        {
            j = j + 1;
        }
        j
    }

    fn comment_end(&self, start: usize) -> (e: usize)
        requires
            start <= self@.len(),
        ensures
            e == comment_end(self@, start as int),
    {
        proof {
            use_type_invariant(self);
        }
        let n: usize = self.chars.len();
        let mut j: usize = start;
        while j < n && self.chars[j] != '\n'
            invariant
                start <= j <= n,
                n == self@.len(),
                self.chars@ == self@,
                comment_end(self@, start as int) == comment_end(self@, j as int),
            decreases n - j,
        {
            j = j + 1;
        }
        j
    }

    /// Whether the word from `a` to `b` is `kw` up to ASCII case.
    fn word_is(&self, a: usize, b: usize, kw: &str) -> (r: bool)
        requires
            a <= b <= self@.len(),
        ensures
            r == same_folded(self@.subrange(a as int, b as int), kw@),
    {
        proof {
            use_type_invariant(self);
        }
        let w = Ghost(self@.subrange(a as int, b as int));
        let k: usize = kw.unicode_len();
        if b - a != k {
            return false;
        }
        let mut i: usize = 0;
        while i < k
            invariant
                i <= k,
                k == kw@.len(),
                k == b - a,
                b <= self@.len(),
                self.chars@ == self@,
                w@ == self@.subrange(a as int, b as int),
                forall|m: int| 0 <= m < i ==> fold_code(#[trigger] w@[m]) == fold_code(kw@[m]),
            decreases k - i,
        {
            if fold(self.chars[a + i]) != fold(kw.get_char(i)) {
                assert(fold_code(w@[i as int]) != fold_code(kw@[i as int]));
                return false;
            }
            i = i + 1;
        }
        true
    }

    /// The token for the word from `a` to `b`.
    fn word_token(&self, a: usize, b: usize) -> (t: Token)
        requires
            a <= b <= self@.len(),
        ensures
            t@ == word_token(self@.subrange(a as int, b as int)),
    {
        proof {
            reveal_strlit("select");
            reveal_strlit("and");
            reveal_strlit("or");
            reveal_strlit("not");
            assert("select"@ =~= seq!['s', 'e', 'l', 'e', 'c', 't']);
            assert("and"@ =~= seq!['a', 'n', 'd']);
            assert("or"@ =~= seq!['o', 'r']);
            assert("not"@ =~= seq!['n', 'o', 't']);
        }
        if self.word_is(a, b, "select") {
            Token::Keyword(Keyword::Select)
        } else if self.word_is(a, b, "and") {
            Token::Operator(Op::And)
        } else if self.word_is(a, b, "or") {
            Token::Operator(Op::Or)
        } else if self.word_is(a, b, "not") {
            Token::Operator(Op::Not)
        } else {
            Token::Literal(self.text(a, b))
        }
    }
}

/// `fold_code` computed.
fn fold(c: char) -> (r: u32)
    ensures
        r == fold_code(c),
{
    if 'A' <= c && c <= 'Z' {
        c as u32 + 32
    } else {
        c as u32
    }
}

pub open spec fn opt_view(t: Option<Token>) -> Option<TokenView> {
    match t {
        Some(x) => Some(x@),
        None => None,
    }
}

pub open spec fn views(ts: Seq<Token>) -> Seq<TokenView> {
    ts.map_values(|t: Token| t@)
}

/// `r` with `ts` put in front of its list.
pub open spec fn append_to(ts: Seq<TokenView>, r: Result<Seq<TokenView>, LexerError>) -> Result<
    Seq<TokenView>,
    LexerError,
> {
    match r {
        Err(e) => Err(e),
        Ok(rest) => Ok(ts + rest),
    }
}

// ----- laws -----

/// `w` is one bare word: a letter or `_`, then letters, digits and `_`.
pub open spec fn is_word(w: Seq<char>) -> bool {
    &&& w.len() > 0
    &&& is_word_start(w[0])
    &&& forall|i: int| 0 <= i < w.len() ==> is_word_char(#[trigger] w[i])
}

/// `c` can begin a token, or is whitespace.
pub open spec fn is_lead(c: char) -> bool {
    is_space(c) || c == '"' || is_digit(c) || is_word_start(c) || c == '#' || op_of_char(c) is Some
        || c == '!' || c == '<' || c == '>'
}

/// The scan started at `k` arrives at position `i` without an error.
pub open spec fn reaches(s: Seq<char>, k: int, i: int) -> bool
    decreases i - k,
{
    if k == i {
        true
    } else if 0 <= k < i && k < s.len() {
        match scan_step(s, k) {
            Ok((_, j)) => k < j <= i && reaches(s, j, i),
            Err(_) => false,
        }
    } else {
        false
    }
}

proof fn lemma_word_runs_to_end(w: Seq<char>, i: int)
    requires
        0 <= i <= w.len(),
        forall|m: int| 0 <= m < w.len() ==> is_word_char(#[trigger] w[m]),
    ensures
        word_end(w, i) == w.len(),
    decreases w.len() - i,
{
    if i < w.len() {
        lemma_word_runs_to_end(w, i + 1);
    }
}

proof fn lemma_lex_word(w: Seq<char>)
    requires
        is_word(w),
    ensures
        lex(w) == Ok::<_, LexerError>(seq![word_token(w)]),
{
    lemma_word_runs_to_end(w, 1);
    assert(w.subrange(0, w.len() as int) =~= w);
    assert(lex_from(w, w.len() as int) == Ok::<Seq<TokenView>, LexerError>(Seq::empty()));
    assert(seq![word_token(w)] + Seq::<TokenView>::empty() =~= seq![word_token(w)]);
}

proof fn lemma_same_folded_trans(a: Seq<char>, b: Seq<char>, c: Seq<char>)
    requires
        same_folded(a, b),
        same_folded(b, c),
    ensures
        same_folded(a, c),
{
    assert forall|i: int| 0 <= i < a.len() implies fold_code(#[trigger] a[i]) == fold_code(c[i]) by {
        assert(fold_code(b[i]) == fold_code(c[i]));
    }
}

proof fn lemma_same_folded_sym(a: Seq<char>, b: Seq<char>)
    requires
        same_folded(a, b),
    ensures
        same_folded(b, a),
{
    assert forall|i: int| 0 <= i < b.len() implies fold_code(#[trigger] b[i]) == fold_code(a[i]) by {
        assert(fold_code(a[i]) == fold_code(b[i]));
    }
}

/// Keywords are matched without regard to case: a word that reads `select`
/// in any mix of upper and lower case scans to the single keyword `Select`.
pub proof fn lemma_select_ignores_case(w: Seq<char>)
    requires
        is_word(w),
        same_folded(w, seq!['s', 'e', 'l', 'e', 'c', 't']),
    ensures
        lex(w) == Ok::<_, LexerError>(seq![TokenView::Keyword(Keyword::Select)]),
{
    lemma_lex_word(w);
}

/// Two words that differ only in ASCII case each scan to one token, and when
/// either is a keyword or an operator word the two tokens are the same.
pub proof fn lemma_word_class_ignores_case(w1: Seq<char>, w2: Seq<char>)
    requires
        is_word(w1),
        is_word(w2),
        same_folded(w1, w2),
    ensures
        lex(w1) == Ok::<_, LexerError>(seq![word_token(w1)]),
        lex(w2) == Ok::<_, LexerError>(seq![word_token(w2)]),
        !(word_token(w1) is Literal) ==> word_token(w1) == word_token(w2),
        !(word_token(w2) is Literal) ==> word_token(w1) == word_token(w2),
{
    lemma_lex_word(w1);
    lemma_lex_word(w2);
    lemma_same_folded_sym(w1, w2);
    let ks = seq![
        seq!['s', 'e', 'l', 'e', 'c', 't'],
        seq!['a', 'n', 'd'],
        seq!['o', 'r'],
        seq!['n', 'o', 't'],
    ];
    assert forall|k: int| 0 <= k < 4 implies same_folded(w1, #[trigger] ks[k]) == same_folded(
        w2,
        ks[k],
    ) by {
        if same_folded(w1, ks[k]) {
            lemma_same_folded_trans(w2, w1, ks[k]);
        }
        if same_folded(w2, ks[k]) {
            lemma_same_folded_trans(w1, w2, ks[k]);
        }
    }
    assert(same_folded(w1, ks[0]) == same_folded(w2, ks[0]));
    assert(same_folded(w1, ks[1]) == same_folded(w2, ks[1]));
    assert(same_folded(w1, ks[2]) == same_folded(w2, ks[2]));
    assert(same_folded(w1, ks[3]) == same_folded(w2, ks[3]));
}

proof fn lemma_fails_from(s: Seq<char>, k: int, i: int)
    requires
        reaches(s, k, i),
        0 <= i < s.len(),
        !is_lead(s[i]),
    ensures
        lex_from(s, k) == Err::<Seq<TokenView>, _>(LexerError::UnrecognizedToken),
    decreases i - k,
{
    if k != i {
        if let Ok((_, j)) = scan_step(s, k) {
            lemma_fails_from(s, j, i);
        }
    }
}

/// The scan fails fast: once it arrives at a character that begins no token,
/// the whole result is `UnrecognizedToken`, with no tokens returned.
pub proof fn lemma_unrecognized_fails(s: Seq<char>, i: int)
    requires
        reaches(s, 0, i),
        0 <= i < s.len(),
        !is_lead(s[i]),
    ensures
        lex(s) == Err::<Seq<TokenView>, _>(LexerError::UnrecognizedToken),
{
    lemma_fails_from(s, 0, i);
}

proof fn lemma_no_format_error_from(s: Seq<char>, i: int)
    ensures
        lex_from(s, i) != Err::<Seq<TokenView>, _>(LexerError::InvalidNumberFormat),
    decreases s.len() - i,
{
    if 0 <= i < s.len() {
        lemma_step_advances(s, i);
        if let Ok((_, j)) = scan_step(s, i) {
            lemma_no_format_error_from(s, j);
        }
    }
}

/// The scan itself never reports `InvalidNumberFormat`: numerals are kept as
/// their text, so the only error it gives is `UnrecognizedToken`.
pub proof fn lemma_scan_errors_are_unrecognized(s: Seq<char>)
    ensures
        lex(s) matches Err(e) ==> e == LexerError::UnrecognizedToken,
{
    lemma_no_format_error_from(s, 0);
}

} // verus!
