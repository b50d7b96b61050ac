use vstd::prelude::*;

verus! {

/// A lexical token of the expression language.
#[derive(Debug, PartialEq, Eq)]
pub enum Token {
    Num(usize),
    Plus,
    Minus,
    Asterisk,
    Slash,
    Eq,
    NotEq,
    GreaterThan,
    LessThan,
    GreaterThanOrEq,
    LessThanOrEq,
    LParen,
    RParen,
    Ident(String),
    Assign,
    Semicolon,
}

/// Why a source text cannot be tokenized.
#[derive(Debug, Clone, Copy, PartialEq, Eq)]
pub enum TokenizeError {
    /// A character that starts no token and is no white space.
    UnexpectedChar(char),
    /// A `=` or `!` that is not followed by `=`: such operators are not supported.
    Unimplemented,
    /// A run of digits whose value does not fit in a `usize`.
    NumberOverflow,
}

/// `c` is an ASCII decimal digit.
pub open spec fn is_digit(c: char) -> bool {
    '0' <= c && c <= '9'
}

/// The value of the ASCII digit `c`.
pub open spec fn digit_value(c: char) -> nat {
    (c as int - '0' as int) as nat
}

/// `c` has the Unicode `White_Space` property.
pub open spec fn is_white_space(c: char) -> bool {
    let u = c as u32;
    ||| 0x09 <= u && u <= 0x0D
    ||| u == 0x20
    ||| u == 0x85
    ||| u == 0xA0
    ||| u == 0x1680
    ||| 0x2000 <= u && u <= 0x200A
    ||| u == 0x2028
    ||| u == 0x2029
    ||| u == 0x202F
    ||| u == 0x205F
    ||| u == 0x3000
}

/// The end of the maximal run of digits of `cs` that starts at `i`.
pub open spec fn digit_end(cs: Seq<char>, i: int) -> int
    decreases cs.len() - i,
{
    if 0 <= i < cs.len() && is_digit(cs[i]) {
        digit_end(cs, i + 1)
    } else {
        i
    }
}

/// The decimal value of the digits `cs[i..j]`.
pub open spec fn digits_value(cs: Seq<char>, i: int, j: int) -> nat
    decreases j - i,
{
    if j <= i {
        0
    } else {
        digits_value(cs, i, j - 1) * 10 + digit_value(cs[j - 1])
    }
}

/// Puts `ts` in front of the tokens of `r`, if `r` holds tokens.
pub open spec fn prepend_tokens(
    ts: Seq<Token>,
    r: Result<Seq<Token>, TokenizeError>,
) -> Result<Seq<Token>, TokenizeError> {
    match r {
        Ok(rest) => Ok(ts + rest),
        Err(e) => Err(e),
    }
}

/// The token that a single character stands for, where it stands for one by itself.
pub open spec fn single_char_token(c: char) -> Option<Token> {
    if c == '+' {
        Some(Token::Plus)
    } else if c == '-' {
        Some(Token::Minus)
    } else if c == '*' {
        Some(Token::Asterisk)
    } else if c == '/' {
        Some(Token::Slash)
    } else if c == '(' {
        Some(Token::LParen)
    } else if c == ')' {
        Some(Token::RParen)
    } else {
        None
    }
}

/// `cs[i]` exists and is `=`.
pub open spec fn eq_at(cs: Seq<char>, i: int) -> bool {
    0 <= i < cs.len() && cs[i] == '='
}

/// The tokens of `cs[i..]`, scanned from left to right; the first character that cannot
/// be scanned gives the error.
pub open spec fn tokenize_from(cs: Seq<char>, i: int) -> Result<Seq<Token>, TokenizeError>
    decreases cs.len() - i,
{
    if i < 0 || i >= cs.len() {
        Ok(Seq::empty())
    } else {
        let c = cs[i];
        if is_digit(c) {
            let j = digit_end(cs, i);
            proof {
                lemma_digit_end_bounds(cs, i);
            }
            if digits_value(cs, i, j) > usize::MAX {
                Err(TokenizeError::NumberOverflow)
            } else {
                prepend_tokens(
                    seq![Token::Num(digits_value(cs, i, j) as usize)],
                    tokenize_from(cs, j),
                )
            }
        } else if single_char_token(c) is Some {
            prepend_tokens(seq![single_char_token(c)->0], tokenize_from(cs, i + 1))
        } else if c == '=' {
            if eq_at(cs, i + 1) {
                prepend_tokens(seq![Token::Eq], tokenize_from(cs, i + 2))
            } else {
                Err(TokenizeError::Unimplemented)
            }
        } else if c == '!' {
            if eq_at(cs, i + 1) {
                prepend_tokens(seq![Token::NotEq], tokenize_from(cs, i + 2))
            } else {
                Err(TokenizeError::Unimplemented)
            }
        } else if c == '>' {
            if eq_at(cs, i + 1) {
                prepend_tokens(seq![Token::GreaterThanOrEq], tokenize_from(cs, i + 2))
            } else {
                prepend_tokens(seq![Token::GreaterThan], tokenize_from(cs, i + 1))
            }
        } else if c == '<' {
            if eq_at(cs, i + 1) {
                prepend_tokens(seq![Token::LessThanOrEq], tokenize_from(cs, i + 2))
            } else {
                prepend_tokens(seq![Token::LessThan], tokenize_from(cs, i + 1))
            }
        } else if is_white_space(c) {
            tokenize_from(cs, i + 1)
        } else {
            Err(TokenizeError::UnexpectedChar(c))
        }
    }
}

/// The tokens of the whole text `cs`.
pub open spec fn spec_tokenize(cs: Seq<char>) -> Result<Seq<Token>, TokenizeError> {
    tokenize_from(cs, 0)
}

/// Putting `a` and then `b` in front of the tokens of `r` puts `a + b` there.
pub proof fn lemma_prepend_assoc(
    a: Seq<Token>,
    b: Seq<Token>,
    r: Result<Seq<Token>, TokenizeError>,
)
    ensures
        prepend_tokens(a, prepend_tokens(b, r)) == prepend_tokens(a + b, r),
{
    if let Ok(x) = r {
        assert(a + (b + x) =~= (a + b) + x);
    }
}

/// A run of digits that starts on a digit is not empty and stays inside the text.
pub proof fn lemma_digit_end_bounds(cs: Seq<char>, i: int)
    requires
        0 <= i < cs.len(),
        is_digit(cs[i]),
    ensures
        i < digit_end(cs, i) <= cs.len(),
        forall|k: int| i <= k < digit_end(cs, i) ==> is_digit(#[trigger] cs[k]),
    decreases cs.len() - i,
{
    assert(digit_end(cs, i) == digit_end(cs, i + 1));
    if i + 1 < cs.len() && is_digit(cs[i + 1]) {
        lemma_digit_end_bounds(cs, i + 1);
    } else {
        assert(digit_end(cs, i + 1) == i + 1);
    }
}

/// Appending a digit never makes the value of a digit run smaller.
pub proof fn lemma_digits_value_monotone(cs: Seq<char>, i: int, j: int, k: int)
    requires
        i <= j <= k,
    ensures
        digits_value(cs, i, j) <= digits_value(cs, i, k),
    decreases k - j,
{
    if j < k {
        lemma_digits_value_monotone(cs, i, j, k - 1);
    }
}

/// `c` is an ASCII decimal digit.
fn is_ascii_digit(c: char) -> (b: bool)
    ensures
        b == is_digit(c),
{
    '0' <= c && c <= '9'
}

/// `c` is white space in the sense of Unicode's `White_Space` property.
pub fn is_whitespace_char(c: char) -> (b: bool)
    ensures
        b == is_white_space(c),
{
    let u = c as u32;
    (0x09 <= u && u <= 0x0D) || u == 0x20 || u == 0x85 || u == 0xA0 || u == 0x1680 || (0x2000
        <= u && u <= 0x200A) || u == 0x2028 || u == 0x2029 || u == 0x202F || u == 0x205F || u
        == 0x3000
}

/// The result of `try_tokenize` seen as a sequence of tokens.
pub open spec fn tokens_view(r: Result<Vec<Token>, TokenizeError>) -> Result<
    Seq<Token>,
    TokenizeError,
> {
    match r {
        Ok(v) => Ok(v@),
        Err(e) => Err(e),
    }
}

/// Tokenizes `s`: the tokens of `s` from left to right, white space skipped, or the
/// error at the first character that cannot be scanned.
pub fn try_tokenize(s: &str) -> (res: Result<Vec<Token>, TokenizeError>)
    ensures
        tokens_view(res) == spec_tokenize(s@),
        all_scannable(tokens_view(res)),
{
    proof {
        lemma_tokenize_scannable(s@);
    }
    let cs = chars_of(s);
    let n = cs.len();
    let mut tokens: Vec<Token> = Vec::new();
    let mut i: usize = 0;
    while i < n
        invariant
            n == cs@.len(),
            cs@ == s@,
            i <= n,
            spec_tokenize(s@) == prepend_tokens(tokens@, tokenize_from(cs@, i as int)),
        decreases n - i,
    {
        let c = cs[i];
        let ghost rest = tokenize_from(cs@, i as int);
        let ghost old_tokens = tokens@;
        let ghost mut added: Seq<Token> = Seq::empty();
        if is_ascii_digit(c) {
            proof {
                lemma_digit_end_bounds(cs@, i as int);
            }
            let ghost end = digit_end(cs@, i as int);
            let mut j: usize = i;
            let mut value: usize = 0;
            while j < n && is_ascii_digit(cs[j])
                invariant
                    n == cs@.len(),
                    cs@ == s@,
                    rest == tokenize_from(cs@, i as int),
                    spec_tokenize(s@) == prepend_tokens(tokens@, rest),
                    is_digit(cs@[i as int]),
                    i < end <= n,
                    end == digit_end(cs@, i as int),
                    i <= j <= end,
                    digit_end(cs@, j as int) == end,
                    forall|k: int| i <= k < end ==> is_digit(#[trigger] cs@[k]),
                    value == digits_value(cs@, i as int, j as int),
                decreases n - j,
            {
                let d = (cs[j] as u32 - '0' as u32) as usize;
                proof {
                    lemma_digit_end_bounds(cs@, j as int);
                    lemma_digits_value_monotone(cs@, i as int, j as int + 1, end);
                    assert(digits_value(cs@, i as int, j as int + 1) == value * 10 + d);
                }
                match value.checked_mul(10) {
                    Some(v10) => match v10.checked_add(d) {
                        Some(v) => {
                            value = v;
                        },
                        None => {
                            return Err(TokenizeError::NumberOverflow);
                        },
                    },
                    None => {
                        proof {
                            assert(value * 10 + d > usize::MAX) by (nonlinear_arith)
                                requires
                                    value * 10 > usize::MAX,
                            ;
                        }
                        return Err(TokenizeError::NumberOverflow);
                    },
                }
                j = j + 1;
            }
            proof {
                assert(digit_end(cs@, j as int) == j);
                assert(rest == prepend_tokens(seq![Token::Num(value)], tokenize_from(cs@, j as int)));
                added = seq![Token::Num(value)];
            }
            tokens.push(Token::Num(value));
            i = j;
        } else if c == '+' || c == '-' || c == '*' || c == '/' || c == '(' || c == ')' {
            let t = if c == '+' {
                Token::Plus
            } else if c == '-' {
                Token::Minus
            } else if c == '*' {
                Token::Asterisk
            } else if c == '/' {
                Token::Slash
            } else if c == '(' {
                Token::LParen
            } else {
                Token::RParen
            };
            proof {
                added = seq![t];
            }
            tokens.push(t);
            i = i + 1;
        } else if c == '=' || c == '!' || c == '>' || c == '<' {
            let followed_by_eq = i + 1 < n && cs[i + 1] == '=';
            if followed_by_eq {
                let t = if c == '=' {
                    Token::Eq
                } else if c == '!' {
                    Token::NotEq
                } else if c == '>' {
                    Token::GreaterThanOrEq
                } else {
                    Token::LessThanOrEq
                };
                proof {
                    added = seq![t];
                }
                tokens.push(t);
                i = i + 2;
            } else if c == '>' {
                proof {
                    added = seq![Token::GreaterThan];
                }
                tokens.push(Token::GreaterThan);
                i = i + 1;
            } else if c == '<' {
                proof {
                    added = seq![Token::LessThan];
                }
                tokens.push(Token::LessThan);
                i = i + 1;
            } else {
                return Err(TokenizeError::Unimplemented);
            }
        } else if is_whitespace_char(c) {
            i = i + 1;
        } else {
            return Err(TokenizeError::UnexpectedChar(c));
        }
        proof {
            assert(tokens@ =~= old_tokens + added);
            assert(rest == prepend_tokens(added, tokenize_from(cs@, i as int)));
            lemma_prepend_assoc(old_tokens, added, tokenize_from(cs@, i as int));
        }
    }
    Ok(tokens)
}

/// Tokenizes `s`, which must hold only what can be scanned.
pub fn tokenize(s: &str) -> (tokens: Vec<Token>)
    requires
        spec_tokenize(s@) is Ok,
    ensures
        spec_tokenize(s@) == Ok::<Seq<Token>, TokenizeError>(tokens@),
        forall|k: int| 0 <= k < tokens@.len() ==> scannable(#[trigger] tokens@[k]),
{
    match try_tokenize(s) {
        Ok(tokens) => tokens,
        Err(e) => {
            proof {
                assert(false);
            }
            Vec::new()
        },
    }
}

/// The characters of `s`, in order.
fn chars_of(s: &str) -> (v: Vec<char>)
    ensures
        v@ == s@,
{
    let mut v: Vec<char> = Vec::new();
    for c in it: s.chars()
        invariant
            v@ == it.seq().take(it.index() as int),
    {
        v.push(c);
    }
    v
}

} // verus!

verus! {

proof fn lemma_digits_value_same(cs1: Seq<char>, i1: int, cs2: Seq<char>, i2: int, n: int)
    requires
        0 <= n,
        0 <= i1,
        i1 + n <= cs1.len(),
        0 <= i2,
        i2 + n <= cs2.len(),
        cs1.subrange(i1, i1 + n) == cs2.subrange(i2, i2 + n),
    ensures
        digits_value(cs1, i1, i1 + n) == digits_value(cs2, i2, i2 + n),
    decreases n,
{
    if n > 0 {
        assert(cs1.subrange(i1, i1 + n - 1) =~= cs1.subrange(i1, i1 + n).drop_last());
        assert(cs2.subrange(i2, i2 + n - 1) =~= cs2.subrange(i2, i2 + n).drop_last());
        lemma_digits_value_same(cs1, i1, cs2, i2, n - 1);
        assert(cs1[i1 + n - 1] == cs1.subrange(i1, i1 + n)[n - 1]);
        assert(cs2[i2 + n - 1] == cs2.subrange(i2, i2 + n)[n - 1]);
    }
}

proof fn lemma_digit_end_same(cs1: Seq<char>, i1: int, cs2: Seq<char>, i2: int)
    requires
        0 <= i1 <= cs1.len(),
        0 <= i2 <= cs2.len(),
        cs1.subrange(i1, cs1.len() as int) == cs2.subrange(i2, cs2.len() as int),
    ensures
        digit_end(cs1, i1) - i1 == digit_end(cs2, i2) - i2,
    decreases cs1.len() - i1,
{
    assert(cs1.subrange(i1, cs1.len() as int).len() == cs1.len() - i1);
    assert(cs2.subrange(i2, cs2.len() as int).len() == cs2.len() - i2);
    if i1 < cs1.len() {
        assert(cs1[i1] == cs1.subrange(i1, cs1.len() as int)[0]);
        assert(cs2[i2] == cs2.subrange(i2, cs2.len() as int)[0]);
        assert(cs1.subrange(i1 + 1, cs1.len() as int) =~= cs1.subrange(
            i1,
            cs1.len() as int,
        ).drop_first());
        assert(cs2.subrange(i2 + 1, cs2.len() as int) =~= cs2.subrange(
            i2,
            cs2.len() as int,
        ).drop_first());
        if is_digit(cs1[i1]) {
            lemma_digit_end_same(cs1, i1 + 1, cs2, i2 + 1);
        }
    } else {
        assert(cs2.subrange(i2, cs2.len() as int).len() == 0);
    }
}

/// If two texts agree from `i1` and `i2` on, they also agree from `i1 + d` and `i2 + d` on.
proof fn lemma_suffix_shift(cs1: Seq<char>, i1: int, cs2: Seq<char>, i2: int, d: int)
    requires
        0 <= i1 <= cs1.len(),
        0 <= i2 <= cs2.len(),
        cs1.subrange(i1, cs1.len() as int) == cs2.subrange(i2, cs2.len() as int),
        0 <= d <= cs1.len() - i1,
    ensures
        cs1.subrange(i1 + d, cs1.len() as int) == cs2.subrange(i2 + d, cs2.len() as int),
{
    let s1 = cs1.subrange(i1, cs1.len() as int);
    assert(cs1.subrange(i1 + d, cs1.len() as int) =~= s1.subrange(d, s1.len() as int));
    assert(cs2.subrange(i2 + d, cs2.len() as int) =~= s1.subrange(d, s1.len() as int));
}

/// Scanning depends only on the text from the current position on.
proof fn lemma_tokenize_suffix(cs1: Seq<char>, i1: int, cs2: Seq<char>, i2: int)
    requires
        0 <= i1 <= cs1.len(),
        0 <= i2 <= cs2.len(),
        cs1.subrange(i1, cs1.len() as int) == cs2.subrange(i2, cs2.len() as int),
    ensures
        tokenize_from(cs1, i1) == tokenize_from(cs2, i2),
    decreases cs1.len() - i1,
{
    let s1 = cs1.subrange(i1, cs1.len() as int);
    let s2 = cs2.subrange(i2, cs2.len() as int);
    assert(s1.len() == s2.len());
    if i1 < cs1.len() {
        let c = cs1[i1];
        assert(s1[0] == c && s2[0] == cs2[i2]);
        assert(eq_at(cs1, i1 + 1) == eq_at(cs2, i2 + 1)) by {
            if i1 + 1 < cs1.len() {
                assert(s1[1] == cs1[i1 + 1] && s2[1] == cs2[i2 + 1]);
            }
        }
        if is_digit(c) {
            lemma_digit_end_bounds(cs1, i1);
            lemma_digit_end_bounds(cs2, i2);
            lemma_digit_end_same(cs1, i1, cs2, i2);
            let j1 = digit_end(cs1, i1);
            let j2 = digit_end(cs2, i2);
            assert(cs1.subrange(i1, j1) =~= s1.subrange(0, j1 - i1));
            assert(cs2.subrange(i2, j2) =~= s2.subrange(0, j1 - i1));
            lemma_digits_value_same(cs1, i1, cs2, i2, j1 - i1);
            lemma_suffix_shift(cs1, i1, cs2, i2, j1 - i1);
            lemma_tokenize_suffix(cs1, j1, cs2, j2);
        } else {
            lemma_suffix_shift(cs1, i1, cs2, i2, 1);
            lemma_tokenize_suffix(cs1, i1 + 1, cs2, i2 + 1);
            if i1 + 2 <= cs1.len() {
                lemma_suffix_shift(cs1, i1, cs2, i2, 2);
                lemma_tokenize_suffix(cs1, i1 + 2, cs2, i2 + 2);
            }
        }
    }
}

/// A white-space character starts no token.
proof fn lemma_white_space_starts_nothing(w: char)
    requires
        is_white_space(w),
    ensures
        !is_digit(w),
        single_char_token(w) is None,
        w != '=',
        w != '!',
        w != '>',
        w != '<',
{
}

/// With white space after `a`, the digit runs inside `a` end where they end in `a`.
proof fn lemma_digit_end_prefix(a: Seq<char>, c: Seq<char>, i: int)
    requires
        a.len() < c.len(),
        c.subrange(0, a.len() as int) == a,
        !is_digit(c[a.len() as int]),
        0 <= i <= a.len(),
    ensures
        digit_end(c, i) == digit_end(a, i),
    decreases a.len() - i,
{
    if i < a.len() {
        assert(c.subrange(0, a.len() as int)[i] == c[i]);
        if is_digit(a[i]) {
            lemma_digit_end_prefix(a, c, i + 1);
        }
    }
}

/// Scanning `a + [w] + b` from inside `a`, for white space `w` and a text `a` that
/// scans without error from `i`, yields the tokens of `a` from `i` and then whatever
/// follows the white space.
proof fn lemma_tokenize_prefix(a: Seq<char>, w: char, b: Seq<char>, i: int)
    requires
        is_white_space(w),
        0 <= i <= a.len(),
        tokenize_from(a, i) is Ok,
    ensures
        tokenize_from(a + seq![w] + b, i) == prepend_tokens(
            tokenize_from(a, i)->Ok_0,
            tokenize_from(a + seq![w] + b, a.len() as int + 1),
        ),
    decreases a.len() - i,
{
    let c = a + seq![w] + b;
    let n = a.len() as int;
    let rest = tokenize_from(c, n + 1);
    lemma_white_space_starts_nothing(w);
    assert(c[n] == w);
    assert(c.subrange(0, n) =~= a);
    assert forall|k: int| 0 <= k < n implies #[trigger] c[k] == a[k] by {
        assert(c.subrange(0, n)[k] == c[k]);
    }
    if i == n {
        assert(Seq::<Token>::empty() + rest->Ok_0 =~= rest->Ok_0);
    } else {
        let ch = a[i];
        assert(c[i] == ch);
        assert(eq_at(a, i + 1) ==> eq_at(c, i + 1));
        assert(!eq_at(a, i + 1) ==> !eq_at(c, i + 1)) by {
            if i + 1 < n {
                assert(c[i + 1] == a[i + 1]);
            }
        }
        if is_digit(ch) {
            lemma_digit_end_bounds(a, i);
            lemma_digit_end_prefix(a, c, i);
            let j = digit_end(a, i);
            assert(c.subrange(i, j) =~= a.subrange(i, j)) by {
                assert forall|k: int| 0 <= k < j - i implies c.subrange(i, j)[k] == a.subrange(
                    i,
                    j,
                )[k] by {
                    assert(c[i + k] == a[i + k]);
                }
            }
            lemma_digits_value_same(c, i, a, i, j - i);
            lemma_tokenize_prefix(a, w, b, j);
            lemma_prepend_assoc(
                seq![Token::Num(digits_value(a, i, j) as usize)],
                tokenize_from(a, j)->Ok_0,
                rest,
            );
        } else if single_char_token(ch) is Some {
            lemma_tokenize_prefix(a, w, b, i + 1);
            lemma_prepend_assoc(seq![single_char_token(ch)->0], tokenize_from(a, i + 1)->Ok_0, rest);
        } else if ch == '=' || ch == '!' {
            lemma_tokenize_prefix(a, w, b, i + 2);
            let t = if ch == '=' {
                Token::Eq
            } else {
                Token::NotEq
            };
            lemma_prepend_assoc(seq![t], tokenize_from(a, i + 2)->Ok_0, rest);
        } else if ch == '>' || ch == '<' {
            if eq_at(a, i + 1) {
                lemma_tokenize_prefix(a, w, b, i + 2);
                let t = if ch == '>' {
                    Token::GreaterThanOrEq
                } else {
                    Token::LessThanOrEq
                };
                lemma_prepend_assoc(seq![t], tokenize_from(a, i + 2)->Ok_0, rest);
            } else {
                lemma_tokenize_prefix(a, w, b, i + 1);
                let t = if ch == '>' {
                    Token::GreaterThan
                } else {
                    Token::LessThan
                };
                lemma_prepend_assoc(seq![t], tokenize_from(a, i + 1)->Ok_0, rest);
            }
        } else {
            lemma_tokenize_prefix(a, w, b, i + 1);
        }
    }
}

/// White space separates tokens: when `a` tokenizes, `a`, a white-space character `w`
/// and then `b` tokenize to the tokens of `a` followed by those of `b` (or to the error
/// of `b`).
pub proof fn lemma_whitespace_separates(a: Seq<char>, w: char, b: Seq<char>)
    requires
        spec_tokenize(a) is Ok,
        is_white_space(w),
    ensures
        spec_tokenize(a + seq![w] + b) == prepend_tokens(spec_tokenize(a)->Ok_0, spec_tokenize(b)),
{
    let c = a + seq![w] + b;
    lemma_tokenize_prefix(a, w, b, 0);
    assert(c.subrange(a.len() as int + 1, c.len() as int) =~= b.subrange(0, b.len() as int));
    lemma_tokenize_suffix(c, a.len() as int + 1, b, 0);
}

} // verus!

verus! {

/// A token that scanning can produce: names, `=` alone and `;` are not among them.
pub open spec fn scannable(t: Token) -> bool {
    !(t is Ident) && !(t is Assign) && !(t is Semicolon)
}

/// Every token of `r`, if it holds tokens, can be produced by scanning.
pub open spec fn all_scannable(r: Result<Seq<Token>, TokenizeError>) -> bool {
    r matches Ok(ts) ==> forall|k: int| 0 <= k < ts.len() ==> scannable(#[trigger] ts[k])
}

proof fn lemma_prepend_scannable(t: Token, r: Result<Seq<Token>, TokenizeError>)
    requires
        scannable(t),
        all_scannable(r),
    ensures
        all_scannable(prepend_tokens(seq![t], r)),
{
    if let Ok(rest) = r {
        let ts = seq![t] + rest;
        assert forall|k: int| 0 <= k < ts.len() implies scannable(#[trigger] ts[k]) by {
            if k > 0 {
                assert(ts[k] == rest[k - 1]);
            }
        }
    }
}

proof fn lemma_tokenize_from_scannable(cs: Seq<char>, i: int)
    ensures
        all_scannable(tokenize_from(cs, i)),
    decreases cs.len() - i,
{
    if 0 <= i < cs.len() {
        let c = cs[i];
        if is_digit(c) {
            let j = digit_end(cs, i);
            lemma_digit_end_bounds(cs, i);
            lemma_tokenize_from_scannable(cs, j);
            if digits_value(cs, i, j) <= usize::MAX {
                lemma_prepend_scannable(Token::Num(digits_value(cs, i, j) as usize), tokenize_from(cs, j));
            }
        } else if single_char_token(c) is Some {
            lemma_tokenize_from_scannable(cs, i + 1);
            lemma_prepend_scannable(single_char_token(c)->0, tokenize_from(cs, i + 1));
        } else if c == '=' || c == '!' || c == '>' || c == '<' {
            lemma_tokenize_from_scannable(cs, i + 1);
            if i + 2 <= cs.len() {
                lemma_tokenize_from_scannable(cs, i + 2);
            }
            lemma_prepend_scannable(Token::Eq, tokenize_from(cs, i + 2));
            lemma_prepend_scannable(Token::NotEq, tokenize_from(cs, i + 2));
            lemma_prepend_scannable(Token::GreaterThanOrEq, tokenize_from(cs, i + 2));
            lemma_prepend_scannable(Token::GreaterThan, tokenize_from(cs, i + 1));
            lemma_prepend_scannable(Token::LessThanOrEq, tokenize_from(cs, i + 2));
            lemma_prepend_scannable(Token::LessThan, tokenize_from(cs, i + 1));
        } else if is_white_space(c) {
            lemma_tokenize_from_scannable(cs, i + 1);
        }
    }
}

/// Scanning never produces a name, a lone `=` or a `;`: every token of a tokenized text is
/// a number, an operator or a parenthesis.
pub proof fn lemma_tokenize_scannable(cs: Seq<char>)
    ensures
        spec_tokenize(cs) matches Ok(ts) ==> forall|k: int|
            0 <= k < ts.len() ==> scannable(#[trigger] ts[k]),
{
    lemma_tokenize_from_scannable(cs, 0);
}

} // verus!
