use vstd::prelude::*;
use vstd::std_specs::iter::IteratorSpec;

verus! {

/// One of the four binary arithmetic operator symbols.
#[derive(Debug, Clone, Copy, PartialEq, Eq, Structural)]
pub enum Symbol {
    Plus,
    Minus,
    Mult,
    Div,
}

/// A lexical unit: an integer literal or an operator symbol.
#[derive(Debug, Clone, Copy, PartialEq, Eq, Structural)]
pub enum Token {
    Int(i32),
    Operator(Symbol),
}

/// Why tokenizing stopped.
#[derive(Debug, Clone, Copy, PartialEq, Eq, Structural)]
pub enum LexError {
    /// A character that is neither a decimal digit nor one of `+ - * /`.
    InvalidCharacter(char),
    /// The run of digits at character positions `start..end` denotes a value
    /// above `i32::MAX`.
    IntegerOutOfRange { start: usize, end: usize },
}

pub open spec fn is_digit(c: char) -> bool {
    '0' <= c && c <= '9'
}

pub open spec fn digit_value(c: char) -> int {
    (c as u32) - ('0' as u32)
}

/// The operator symbol that the character `c` stands for, if any.
pub open spec fn symbol_of(c: char) -> Option<Symbol> {
    if c == '+' {
        Some(Symbol::Plus)
    } else if c == '-' {
        Some(Symbol::Minus)
    } else if c == '*' {
        Some(Symbol::Mult)
    } else if c == '/' {
        Some(Symbol::Div)
    } else {
        None
    }
}

/// The position just past the run of digits that starts at `i`.
pub open spec fn run_end(s: Seq<char>, i: int) -> int
    decreases s.len() - i,
{
    if 0 <= i < s.len() && is_digit(s[i]) {
        run_end(s, i + 1)
    } else {
        i
    }
}

/// The value of a sequence of decimal digits, most significant first.
pub open spec fn decimal_value(ds: Seq<char>) -> int
    decreases ds.len(),
{
    if ds.len() == 0 {
        0
    } else {
        decimal_value(ds.drop_last()) * 10 + digit_value(ds.last())
    }
}

/// `pre` followed by the tokens of `r`, or the error of `r`.
pub open spec fn after(pre: Seq<Token>, r: Result<Seq<Token>, LexError>) -> Result<Seq<Token>, LexError> {
    match r {
        Ok(rest) => Ok(pre + rest),
        Err(e) => Err(e),
    }
}

/// The tokens of `s` from position `i` on: a maximal run of digits is one
/// integer, each operator character one operator; the first character that
/// is neither, or the first run whose value exceeds `i32::MAX`, is an error.
pub open spec fn lex_from(s: Seq<char>, i: int) -> Result<Seq<Token>, LexError>
    decreases s.len() - i,
{
    if !(0 <= i < s.len()) {
        Ok(Seq::empty())
    } else if is_digit(s[i]) {
        let j = run_end(s, i);
        proof {
            lemma_run_end_bounds(s, i);
        }
        let v = decimal_value(s.subrange(i, j));
        if v > i32::MAX {
            Err(LexError::IntegerOutOfRange { start: i as usize, end: j as usize })
        } else {
            after(seq![Token::Int(v as i32)], lex_from(s, j))
        }
    } else {
        match symbol_of(s[i]) {
            Some(sym) => after(seq![Token::Operator(sym)], lex_from(s, i + 1)),
            None => Err(LexError::InvalidCharacter(s[i])),
        }
    }
}

/// The tokens of the whole string `s`.
pub open spec fn lex(s: Seq<char>) -> Result<Seq<Token>, LexError> {
    lex_from(s, 0)
}

/// A run of digits ends after its start and within the string.
pub proof fn lemma_run_end_bounds(s: Seq<char>, i: int)
    requires
        0 <= i <= s.len(),
    ensures
        i <= run_end(s, i) <= s.len(),
        i < s.len() && is_digit(s[i]) ==> i < run_end(s, i),
        forall|k: int| i <= k < run_end(s, i) ==> is_digit(#[trigger] s[k]),
        run_end(s, i) < s.len() ==> !is_digit(s[run_end(s, i)]),
    decreases s.len() - i,
{
    if i < s.len() && is_digit(s[i]) {
        lemma_run_end_bounds(s, i + 1);
    }
}

/// The value of a run of digits is never negative.
pub proof fn lemma_decimal_value_nonneg(ds: Seq<char>)
    requires
        forall|k: int| 0 <= k < ds.len() ==> is_digit(#[trigger] ds[k]),
    ensures
        decimal_value(ds) >= 0,
    decreases ds.len(),
{
    if ds.len() > 0 {
        lemma_decimal_value_nonneg(ds.drop_last());
    }
}

/// Appending one token and then the rest is the same as appending both at once.
proof fn lemma_after_push(done: Seq<Token>, t: Token, r: Result<Seq<Token>, LexError>)
    ensures
        after(done, after(seq![t], r)) == after(done.push(t), r),
{
    if let Ok(rest) = r {
        assert(done + (seq![t] + rest) =~= done.push(t) + rest);
    }
}

/// Whether a maximal run of digits, or an operator character, starts at
/// position `k` of `s`.
pub open spec fn starts_unit(s: Seq<char>, k: int) -> bool {
    symbol_of(s[k]) is Some || (is_digit(s[k]) && (k == 0 || !is_digit(s[k - 1])))
}

/// The number of maximal digit runs and operator characters that start at
/// position `i` or later.
pub open spec fn units_from(s: Seq<char>, i: int) -> nat
    decreases s.len() - i,
{
    if !(0 <= i < s.len()) {
        0
    } else {
        (if starts_unit(s, i) { 1nat } else { 0nat }) + units_from(s, i + 1)
    }
}

/// Inside a run of digits no new unit starts.
proof fn lemma_units_in_run(s: Seq<char>, k: int)
    requires
        0 < k <= s.len(),
        is_digit(s[k - 1]),
    ensures
        units_from(s, k) == units_from(s, run_end(s, k)),
    decreases s.len() - k,
{
    if k < s.len() && is_digit(s[k]) {
        lemma_units_in_run(s, k + 1);
    }
}

proof fn lemma_units_bound(s: Seq<char>, i: int)
    requires
        0 <= i <= s.len(),
    ensures
        units_from(s, i) <= s.len() - i,
    decreases s.len() - i,
{
    if i < s.len() {
        lemma_units_bound(s, i + 1);
    }
}

proof fn lemma_lex_from_count(s: Seq<char>, i: int)
    requires
        0 <= i <= s.len(),
        forall|k: int| 0 <= k < s.len() ==> is_digit(#[trigger] s[k]) || symbol_of(s[k]) is Some,
        i < s.len() ==> starts_unit(s, i),
    ensures
        lex_from(s, i) is Ok ==> lex_from(s, i)->Ok_0.len() == units_from(s, i),
    decreases s.len() - i,
{
    if i < s.len() {
        if is_digit(s[i]) {
            let j = run_end(s, i);
            lemma_run_end_bounds(s, i);
            lemma_units_in_run(s, i + 1);
            if j < s.len() {
                assert(symbol_of(s[j]) is Some);
            }
            lemma_lex_from_count(s, j);
        } else {
            if i + 1 < s.len() {
                assert(starts_unit(s, i + 1));
            }
            lemma_lex_from_count(s, i + 1);
        }
    }
}

/// For a string made only of digits and operator characters, a successful
/// tokenization yields exactly one token per maximal run of digits and one
/// per operator character, hence never more tokens than characters.
pub proof fn lemma_token_count(s: Seq<char>)
    requires
        forall|k: int| 0 <= k < s.len() ==> is_digit(#[trigger] s[k]) || symbol_of(s[k]) is Some,
    ensures
        lex(s) is Ok ==> lex(s)->Ok_0.len() == units_from(s, 0),
        lex(s) is Ok ==> lex(s)->Ok_0.len() <= s.len(),
{
    lemma_lex_from_count(s, 0);
    lemma_units_bound(s, 0);
}

/// The view of a tokenizer result: its tokens as a sequence, or its error.
pub open spec fn lexed_view(r: Result<Vec<Token>, LexError>) -> Result<Seq<Token>, LexError> {
    match r {
        Ok(v) => Ok(v@),
        Err(e) => Err(e),
    }
}

/// Turns a string into its token sequence.
pub trait Tokenizer {
    /// The characters to be tokenized.
    spec fn source(&self) -> Seq<char>;

    /// The tokens of the source, or the first lexical error in it.
    fn tokenize(&self) -> (r: Result<Vec<Token>, LexError>)
        ensures
            lexed_view(r) == lex(self.source()),
    ;
}

/// Tokenizing depends on the characters alone: any two results obtained for
/// strings with the same characters are the same.
pub proof fn lemma_tokenize_deterministic(
    a: String,
    b: String,
    ra: Result<Vec<Token>, LexError>,
    rb: Result<Vec<Token>, LexError>,
)
    requires
        a@ == b@,
        lexed_view(ra) == lex(a.source()),
        lexed_view(rb) == lex(b.source()),
    ensures
        lexed_view(ra) == lexed_view(rb),
{
}

impl Tokenizer for String {
    open spec fn source(&self) -> Seq<char> {
        self@
    }

    fn tokenize(&self) -> (r: Result<Vec<Token>, LexError>) {
        let chars = chars_of(self.as_str());
        let n = chars.len();
        let mut tokens: Vec<Token> = Vec::new();
        let mut i: usize = 0;
        while i < n
            invariant
                n == chars@.len(),
                chars@ == self@,
                i <= n,
                lex(self@) == after(tokens@, lex_from(self@, i as int)),
            decreases n - i,
        {
            let ch = chars[i];
            if '0' <= ch && ch <= '9' {
                let start = i;
                let mut value: i32 = 0;
                let mut too_large = false;
                while i < n && '0' <= chars[i] && chars[i] <= '9'
                    invariant
                        n == chars@.len(),
                        chars@ == self@,
                        lex(self@) == after(tokens@, lex_from(self@, start as int)),
                        start < n,
                        start <= i <= n,
                        is_digit(chars@[start as int]),
                        run_end(chars@, start as int) == run_end(chars@, i as int),
                        forall|k: int| start <= k < i ==> is_digit(#[trigger] chars@[k]),
                        !too_large ==> value == decimal_value(chars@.subrange(start as int, i as int)),
                        too_large ==> decimal_value(chars@.subrange(start as int, i as int)) > i32::MAX,
                    decreases n - i,
                {
                    let d = chars[i];
                    let ghost prev = chars@.subrange(start as int, i as int);
                    let ghost next = chars@.subrange(start as int, i as int + 1);
                    assert(next.drop_last() =~= prev);
                    proof {
                        lemma_decimal_value_nonneg(prev);
                    }
                    if !too_large {
                        let grown: i64 = value as i64 * 10 + (d as u32 - '0' as u32) as i64;
                        if grown > i32::MAX as i64 {
                            too_large = true;
                        } else {
                            value = grown as i32;
                        }
                    }
                    i = i + 1;
                }
                proof {
                    lemma_run_end_bounds(chars@, start as int);
                }
                if too_large {
                    return Err(LexError::IntegerOutOfRange { start, end: i });
                }
                let ghost done = tokens@;
                tokens.push(Token::Int(value));
                proof {
                    lemma_after_push(done, Token::Int(value), lex_from(self@, i as int));
                }
            } else if ch == '+' {
                let ghost done = tokens@;
                tokens.push(Token::Operator(Symbol::Plus));
                proof {
                    lemma_after_push(done, Token::Operator(Symbol::Plus), lex_from(self@, i + 1));
                }
                i = i + 1;
            } else if ch == '-' {
                let ghost done = tokens@;
                tokens.push(Token::Operator(Symbol::Minus));
                proof {
                    lemma_after_push(done, Token::Operator(Symbol::Minus), lex_from(self@, i + 1));
                }
                i = i + 1;
            } else if ch == '*' {
                let ghost done = tokens@;
                tokens.push(Token::Operator(Symbol::Mult));
                proof {
                    lemma_after_push(done, Token::Operator(Symbol::Mult), lex_from(self@, i + 1));
                }
                i = i + 1;
            } else if ch == '/' {
                let ghost done = tokens@;
                tokens.push(Token::Operator(Symbol::Div));
                proof {
                    lemma_after_push(done, Token::Operator(Symbol::Div), lex_from(self@, i + 1));
                }
                i = i + 1;
            } else {
                return Err(LexError::InvalidCharacter(ch));
            }
        }
        Ok(tokens)
    }
}

/// The characters of `s`, in order.
fn chars_of(s: &str) -> (r: Vec<char>)
    ensures
        r@ == s@,
{
    broadcast use vstd::string::axiom_spec_iter, vstd::string::next_postcondition;

    let mut it = s.chars();
    let mut out: Vec<char> = Vec::new();
    loop
        invariant
            out@ + it.remaining() == s@,
            it.decrease() is Some,
        ensures
            out@ == s@,
        decreases it.decrease()->0,
    {
        match it.next() {
            Some(c) => {
                out.push(c);
            },
            None => {
                assert(out@ + it.remaining() =~= out@);
                break;
            },
        }
    }
    out
}

} // verus!
