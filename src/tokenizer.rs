use vstd::prelude::*;

verus! {

/// One of the four binary arithmetic operators.
#[derive(Debug, PartialEq, Eq, Clone, Copy, Structural)]
pub enum Symbol {
    Plus,
    Minus,
    Multiply,
    Divide,
}

/// The characters that stand for an operator.
pub open spec fn is_operator_char(c: char) -> bool {
    c == '+' || c == '-' || c == '*' || c == '/'
}

/// The operator that an operator character stands for.
pub open spec fn symbol_of(c: char) -> Symbol {
    if c == '+' {
        Symbol::Plus
    } else if c == '-' {
        Symbol::Minus
    } else if c == '*' {
        Symbol::Multiply
    } else {
        Symbol::Divide
    }
}

/// Binding strength of an operator: additive operators bind loosest.
pub open spec fn precedence(s: Symbol) -> int {
    match s {
        Symbol::Plus | Symbol::Minus => 0,
        Symbol::Multiply | Symbol::Divide => 1,
    }
}

/// Operators are ordered by precedence alone.
pub open spec fn precedence_order(a: Symbol, b: Symbol) -> std::cmp::Ordering {
    if precedence(a) < precedence(b) {
        std::cmp::Ordering::Less
    } else if precedence(a) > precedence(b) {
        std::cmp::Ordering::Greater
    } else {
        std::cmp::Ordering::Equal
    }
}

impl PartialOrd for Symbol {
    fn partial_cmp(&self, other: &Symbol) -> (r: Option<std::cmp::Ordering>)
        ensures
            r == Some(precedence_order(*self, *other)),
    {
        match (*self, *other) {
            (Symbol::Plus, Symbol::Plus)
            | (Symbol::Minus, Symbol::Minus)
            | (Symbol::Plus, Symbol::Minus)
            | (Symbol::Minus, Symbol::Plus)
            | (Symbol::Multiply, Symbol::Divide)
            | (Symbol::Divide, Symbol::Multiply)
            | (Symbol::Multiply, Symbol::Multiply)
            | (Symbol::Divide, Symbol::Divide) => Some(std::cmp::Ordering::Equal),
            (Symbol::Divide, Symbol::Minus)
            | (Symbol::Divide, Symbol::Plus)
            | (Symbol::Multiply, Symbol::Minus)
            | (Symbol::Multiply, Symbol::Plus) => Some(std::cmp::Ordering::Greater),
            (Symbol::Plus, Symbol::Multiply)
            | (Symbol::Minus, Symbol::Multiply)
            | (Symbol::Plus, Symbol::Divide)
            | (Symbol::Minus, Symbol::Divide) => Some(std::cmp::Ordering::Less),
        }
    }
}

impl vstd::std_specs::cmp::PartialOrdSpecImpl for Symbol {
    open spec fn obeys_partial_cmp_spec() -> bool {
        true
    }

    open spec fn partial_cmp_spec(&self, other: &Symbol) -> Option<std::cmp::Ordering> {
        Some(precedence_order(*self, *other))
    }
}

impl Symbol {
    /// The operator written as `c`; any other character is refused.
    pub fn from_char(c: &char) -> (r: Result<Self, TokenizerError>)
        ensures
            is_operator_char(*c) ==> r == Ok::<Symbol, TokenizerError>(symbol_of(*c)),
            !is_operator_char(*c) ==> (r matches Err(e) && e@ == (
                invalid_char_message(),
                seq![*c],
            )),
    {
        match *c {
            '+' => Ok(Symbol::Plus),
            '-' => Ok(Symbol::Minus),
            '*' => Ok(Symbol::Multiply),
            '/' => Ok(Symbol::Divide),
            _ => Err(TokenizerError { message: invalid_char_text(), string: char_text(*c) }),
        }
    }
}

/// A lexical unit: an unsigned integer or an operator.
#[derive(Debug, PartialEq, Eq, Clone, Copy, Structural)]
pub enum Token {
    Integer(u32),
    Operator(Symbol),
}

/// Why a text could not be split into tokens: a message and the offending
/// fragment of the text.
#[derive(Debug, Clone, PartialEq)]
pub struct TokenizerError {
    pub message: String,
    pub string: String,
}

impl View for TokenizerError {
    type V = (Seq<char>, Seq<char>);

    open spec fn view(&self) -> (Seq<char>, Seq<char>) {
        (self.message@, self.string@)
    }
}

impl TokenizerError {
    /// The message followed by the fragment in parentheses.
    pub fn text(&self) -> (r: String)
        ensures
            r@ == self.message@ + " ("@ + self.string@ + ")"@,
    {
        let r = self.message.clone().concat(" (");
        let r = r.concat(self.string.as_str());
        r.concat(")")
    }
}

pub open spec fn invalid_char_message() -> Seq<char> {
    "Invalid char to symbol"@
}

pub open spec fn bad_number_message() -> Seq<char> {
    "Error parsing u32"@
}

fn invalid_char_text() -> (r: String)
    ensures
        r@ == invalid_char_message(),
{
    "Invalid char to symbol".to_string()
}

fn bad_number_text() -> (r: String)
    ensures
        r@ == bad_number_message(),
{
    "Error parsing u32".to_string()
}

pub open spec fn is_digit(c: char) -> bool {
    '0' <= c && c <= '9'
}

pub open spec fn all_digits(s: Seq<char>) -> bool {
    forall|i: int| 0 <= i < s.len() ==> is_digit(#[trigger] s[i])
}

pub open spec fn digit_value(c: char) -> nat {
    (c as int - '0' as int) as nat
}

/// The number that a run of decimal digits writes, most significant first.
pub open spec fn digits_value(s: Seq<char>) -> nat
    decreases s.len(),
{
    if s.len() == 0 {
        0
    } else {
        digits_value(s.drop_last()) * 10 + digit_value(s.last())
    }
}

/// A non-empty run of digits whose value fits in a `u32`.
pub open spec fn is_number(s: Seq<char>) -> bool {
    s.len() > 0 && all_digits(s) && digits_value(s) <= u32::MAX
}

/// The token for a run of characters, or the error naming the run.
pub open spec fn number_token(s: Seq<char>) -> Result<Token, (Seq<char>, Seq<char>)> {
    if is_number(s) {
        Ok(Token::Integer(digits_value(s) as u32))
    } else {
        Err((bad_number_message(), s))
    }
}

/// How many digits the text starts with.
pub open spec fn digit_run_len(s: Seq<char>) -> nat
    decreases s.len(),
{
    if s.len() > 0 && is_digit(s[0]) {
        1 + digit_run_len(s.drop_first())
    } else {
        0
    }
}

/// Puts `prefix` before the tokens of a successful outcome.
pub open spec fn after(prefix: Seq<Token>, r: Result<Seq<Token>, (Seq<char>, Seq<char>)>) -> Result<
    Seq<Token>,
    (Seq<char>, Seq<char>),
> {
    match r {
        Ok(t) => Ok(prefix + t),
        Err(e) => Err(e),
    }
}

/// The outcome of tokenizing a text. The text is read as a run of digits
/// followed either by its end or by an operator and the rest of the text.
/// A character that is neither digit nor operator is refused as soon as it
/// is reached; a run that is empty or does not fit in a `u32` is refused
/// when the operator or the end that closes it is reached.
pub open spec fn lex(s: Seq<char>) -> Result<Seq<Token>, (Seq<char>, Seq<char>)>
    decreases s.len(),
    via lex_decreases
{
    let k = digit_run_len(s) as int;
    let run = s.subrange(0, k);
    if k < s.len() && !is_operator_char(s[k]) {
        Err((invalid_char_message(), seq![s[k]]))
    } else {
        match number_token(run) {
            Err(e) => Err(e),
            Ok(t) => if k == s.len() {
                Ok(seq![t])
            } else {
                after(seq![t, Token::Operator(symbol_of(s[k]))], lex(s.subrange(k + 1, s.len() as int)))
            },
        }
    }
}

proof fn lemma_digit_run_len_bound(s: Seq<char>)
    ensures
        digit_run_len(s) <= s.len(),
    decreases s.len(),
{
    if s.len() > 0 && is_digit(s[0]) {
        lemma_digit_run_len_bound(s.drop_first());
    }
}

#[via_fn]
proof fn lex_decreases(s: Seq<char>) {
    lemma_digit_run_len_bound(s);
}

proof fn lemma_digit_run_len(s: Seq<char>, k: int)
    requires
        0 <= k <= s.len(),
        all_digits(s.subrange(0, k)),
        k == s.len() || !is_digit(s[k]),
    ensures
        digit_run_len(s) == k,
    decreases k,
{
    if k > 0 {
        assert(is_digit(s.subrange(0, k)[0]));
        let t = s.drop_first();
        assert forall|i: int| 0 <= i < k - 1 implies is_digit(#[trigger] t.subrange(0, k - 1)[i]) by {
            assert(t.subrange(0, k - 1)[i] == s.subrange(0, k)[i + 1]);
        }
        if k < s.len() {
            assert(t[k - 1] == s[k]);
        }
        lemma_digit_run_len(t, k - 1);
    }
}

proof fn lemma_prefix_value(s: Seq<char>, k: int)
    requires
        0 <= k <= s.len(),
    ensures
        digits_value(s.subrange(0, k)) <= digits_value(s),
    decreases s.len(),
{
    if k < s.len() {
        lemma_prefix_value(s.drop_last(), k);
        assert(s.drop_last().subrange(0, k) == s.subrange(0, k));
    } else {
        assert(s.subrange(0, k) == s);
    }
}

/// Reads `token` as an unsigned integer and pushes it onto `tokens`.
pub fn parse_token(token: &str, tokens: &mut Vec<Token>) -> (r: Result<(), TokenizerError>)
    ensures
        match number_token(token@) {
            Ok(t) => r is Ok && final(tokens)@ == old(tokens)@.push(t),
            Err(e) => (r matches Err(x) && x@ == e) && final(tokens)@ == old(tokens)@,
        },
{
    let n = token.unicode_len();
    let mut value: u32 = 0;
    let mut i: usize = 0;
    let mut fits = n > 0;
    while fits && i < n
        invariant
            n == token@.len(),
            i <= n,
            fits ==> n > 0,
            fits ==> all_digits(token@.subrange(0, i as int)),
            fits ==> value == digits_value(token@.subrange(0, i as int)),
            !fits ==> !is_number(token@),
        decreases n - i + (if fits { 1int } else { 0 }),
    {
        let c = token.get_char(i);
        if '0' <= c && c <= '9' {
            let next: u64 = value as u64 * 10 + (c as u32 - '0' as u32) as u64;
            let ghost prefix = token@.subrange(0, i + 1);
            assert(prefix.drop_last() == token@.subrange(0, i as int));
            if next > u32::MAX as u64 {
                proof {
                    lemma_prefix_value(token@, i + 1);
                }
                fits = false;
            } else {
                value = next as u32;
                i = i + 1;
            }
        } else {
            fits = false;
        }
    }
    if fits {
        assert(token@.subrange(0, n as int) == token@);
        tokens.push(Token::Integer(value));
        Ok(())
    } else {
        Err(TokenizerError { message: bad_number_text(), string: token.to_string() })
    }
}

/// Something that can be split into tokens.
pub trait Tokenizer {
    /// The characters that are split.
    spec fn chars_of(&self) -> Seq<char>;

    fn tokenize(&self) -> (r: Result<Vec<Token>, TokenizerError>)
        ensures
            match r {
                Ok(t) => lex(self.chars_of()) == Ok::<Seq<Token>, (Seq<char>, Seq<char>)>(t@),
                Err(e) => lex(self.chars_of()) == Err::<Seq<Token>, (Seq<char>, Seq<char>)>(e@),
            },
    ;
}

proof fn lemma_after_after(a: Seq<Token>, b: Seq<Token>, r: Result<Seq<Token>, (Seq<char>, Seq<char>)>)
    ensures
        after(a, after(b, r)) == after(a + b, r),
{
    if let Ok(t) = r {
        assert(a + (b + t) == (a + b) + t);
    }
}

/// The outcome of lexing the rest of `s`, from `start` on, given that
/// `s[start..end]` are digits and `s[end]` is not.
proof fn lemma_lex_unfold(s: Seq<char>, start: int, end: int)
    requires
        0 <= start <= end <= s.len(),
        all_digits(s.subrange(start, end)),
        end == s.len() || !is_digit(s[end]),
    ensures
        ({
            let rest = s.subrange(start, s.len() as int);
            let run = s.subrange(start, end);
            &&& digit_run_len(rest) == end - start
            &&& rest.subrange(0, end - start) == run
            &&& end < s.len() ==> rest[end - start] == s[end]
            &&& end < s.len() ==> rest.subrange(end - start + 1, rest.len() as int) == s.subrange(
                end + 1,
                s.len() as int,
            )
        }),
{
    let rest = s.subrange(start, s.len() as int);
    assert(rest.subrange(0, end - start) == s.subrange(start, end));
    if end < s.len() {
        assert(rest[end - start] == s[end]);
    }
    lemma_digit_run_len(rest, end - start);
    if end < s.len() {
        assert(rest.subrange(end - start + 1, rest.len() as int) == s.subrange(end + 1, s.len() as int));
    }
}

impl Tokenizer for str {
    open spec fn chars_of(&self) -> Seq<char> {
        self@
    }

    /// Scans the text once, keeping the current run of digits as the span
    /// `start..end`; an operator or the end of the text closes the run.
    fn tokenize(&self) -> (r: Result<Vec<Token>, TokenizerError>) {
        let ghost s = self@;
        let n = self.unicode_len();
        let mut tokens: Vec<Token> = Vec::new();
        let mut start: usize = 0;
        let mut end: usize = 0;
        proof {
            assert(s.subrange(0, n as int) == s);
            let r = lex(s);
            if let Ok(t) = r {
                assert(tokens@ + t == t);
            }
        }
        while end < n
            invariant
                n == s.len(),
                s == self@,
                start <= end <= n,
                all_digits(s.subrange(start as int, end as int)),
                lex(s) == after(tokens@, lex(s.subrange(start as int, n as int))),
            decreases n - end,
        {
            let c = self.get_char(end);
            if '0' <= c && c <= '9' {
                assert forall|i: int| 0 <= i < end + 1 - start implies is_digit(
                    #[trigger] s.subrange(start as int, end + 1)[i],
                ) by {
                    if i < end - start {
                        assert(s.subrange(start as int, end + 1)[i] == s.subrange(
                            start as int,
                            end as int,
                        )[i]);
                    }
                }
                end = end + 1;
            } else if c == '+' || c == '-' || c == '*' || c == '/' {
                proof {
                    lemma_lex_unfold(s, start as int, end as int);
                }
                let ghost before = tokens@;
                let run = self.substring_char(start, end);
                match parse_token(run, &mut tokens) {
                    Ok(()) => {},
                    Err(e) => {
                        return Err(e);
                    },
                }
                match Symbol::from_char(&c) {
                    Ok(sym) => {
                        tokens.push(Token::Operator(sym));
                    },
                    Err(e) => {
                        return Err(e);
                    },
                }
                proof {
                    assert(tokens@ == before + seq![
                        Token::Integer(digits_value(run@) as u32),
                        Token::Operator(symbol_of(c)),
                    ]);
                    lemma_after_after(
                        before,
                        seq![
                            Token::Integer(digits_value(run@) as u32),
                            Token::Operator(symbol_of(c)),
                        ],
                        lex(s.subrange(end + 1, n as int)),
                    );
                    assert(s.subrange(end + 1, n as int).subrange(0, 0) =~= Seq::<char>::empty());
                }
                start = end + 1;
                end = end + 1;
            } else {
                proof {
                    lemma_lex_unfold(s, start as int, end as int);
                }
                return Err(TokenizerError { message: invalid_char_text(), string: char_text(c) });
            }
        }
        proof {
            lemma_lex_unfold(s, start as int, end as int);
        }
        let ghost before = tokens@;
        let run = self.substring_char(start, end);
        match parse_token(run, &mut tokens) {
            Ok(()) => {},
            Err(e) => {
                return Err(e);
            },
        }
        proof {
            let t = Token::Integer(digits_value(run@) as u32);
            assert(before.push(t) == before + seq![t]);
        }
        Ok(tokens)
    }
}

/// A text of the accepted grammar: runs of digits, each writing a `u32`,
/// separated by single operator characters.
pub open spec fn is_expression_text(s: Seq<char>) -> bool {
    &&& s.len() > 0
    &&& forall|i: int| 0 <= i < s.len() ==> is_digit(#[trigger] s[i]) || is_operator_char(s[i])
    &&& !is_operator_char(s[0])
    &&& !is_operator_char(s.last())
    &&& forall|i: int|
        0 <= i < s.len() - 1 ==> !(is_operator_char(#[trigger] s[i]) && is_operator_char(s[i + 1]))
    &&& forall|i: int, j: int|
        0 <= i <= j <= s.len() && all_digits(#[trigger] s.subrange(i, j)) ==> digits_value(
            s.subrange(i, j),
        ) <= u32::MAX
}

/// Integer tokens at the even positions, operator tokens at the odd ones,
/// and an integer at each end.
pub open spec fn alternates(ts: Seq<Token>) -> bool {
    &&& ts.len() % 2 == 1
    &&& forall|i: int| 0 <= i < ts.len() ==> ((#[trigger] ts[i] is Integer) <==> i % 2 == 0)
}

proof fn lemma_digit_run_facts(s: Seq<char>)
    ensures
        digit_run_len(s) <= s.len(),
        all_digits(s.subrange(0, digit_run_len(s) as int)),
        digit_run_len(s) < s.len() ==> !is_digit(s[digit_run_len(s) as int]),
    decreases s.len(),
{
    if s.len() > 0 && is_digit(s[0]) {
        let t = s.drop_first();
        lemma_digit_run_facts(t);
        let k = digit_run_len(s) as int;
        assert forall|i: int| 0 <= i < k implies is_digit(#[trigger] s.subrange(0, k)[i]) by {
            if i > 0 {
                assert(s.subrange(0, k)[i] == t.subrange(0, k - 1)[i - 1]);
            }
        }
        if k < s.len() {
            assert(s[k] == t[k - 1]);
        }
    }
}

/// Tokenizing a text of the accepted grammar succeeds, and its tokens hold
/// `k` integers and `k - 1` operators, in alternation.
pub proof fn lemma_tokenize_alternates(s: Seq<char>)
    requires
        is_expression_text(s),
    ensures
        lex(s) is Ok,
        alternates(lex(s)->Ok_0),
    decreases s.len(),
{
    lemma_digit_run_facts(s);
    let k = digit_run_len(s) as int;
    let run = s.subrange(0, k);
    assert(is_digit(s[0]));
    assert(digits_value(run) <= u32::MAX);
    let t = Token::Integer(digits_value(run) as u32);
    if k == s.len() {
        assert(lex(s) == Ok::<Seq<Token>, (Seq<char>, Seq<char>)>(seq![t]));
    } else {
        assert(is_operator_char(s[k]));
        assert(k + 1 < s.len());
        let rest = s.subrange(k + 1, s.len() as int);
        assert(rest[0] == s[k + 1]);
        assert(rest.last() == s.last());
        assert forall|i: int| 0 <= i < rest.len() implies is_digit(#[trigger] rest[i])
            || is_operator_char(rest[i]) by {
            assert(rest[i] == s[k + 1 + i]);
        }
        assert forall|i: int| 0 <= i < rest.len() - 1 implies !(is_operator_char(#[trigger] rest[i])
            && is_operator_char(rest[i + 1])) by {
            assert(rest[i] == s[k + 1 + i]);
            assert(rest[i + 1] == s[k + 1 + i + 1]);
        }
        assert forall|i: int, j: int|
            0 <= i <= j <= rest.len() && all_digits(#[trigger] rest.subrange(i, j)) implies digits_value(
            rest.subrange(i, j),
        ) <= u32::MAX by {
            assert(rest.subrange(i, j) == s.subrange(k + 1 + i, k + 1 + j));
        }
        lemma_tokenize_alternates(rest);
        let tail = lex(rest)->Ok_0;
        let all = seq![t, Token::Operator(symbol_of(s[k]))] + tail;
        assert(lex(s) == Ok::<Seq<Token>, (Seq<char>, Seq<char>)>(all));
        assert forall|i: int| 0 <= i < all.len() implies ((#[trigger] all[i] is Integer) <==> i % 2
            == 0) by {
            if i >= 2 {
                assert(all[i] == tail[i - 2]);
            }
        }
    }
}

/// Tokenizing fails on an empty text and on one that ends with an operator.
pub proof fn lemma_tokenize_refuses_open_end(s: Seq<char>)
    requires
        s.len() == 0 || is_operator_char(s.last()),
    ensures
        lex(s) is Err,
    decreases s.len(),
{
    lemma_digit_run_facts(s);
    let k = digit_run_len(s) as int;
    let run = s.subrange(0, k);
    if k < s.len() && !is_operator_char(s[k]) {
    } else if !is_number(run) {
    } else if k == s.len() {
        assert(is_digit(run[k - 1]));
        assert(run[k - 1] == s.last());
    } else {
        let rest = s.subrange(k + 1, s.len() as int);
        if rest.len() > 0 {
            assert(rest.last() == s.last());
        }
        lemma_tokenize_refuses_open_end(rest);
    }
}

/// Relies on `char`'s `ToString`: the text of a character is that character alone.
#[verifier::external_body]
fn char_text(c: char) -> (r: String)
    ensures
        r@ == seq![c],
{
    c.to_string()
}

} // verus!
