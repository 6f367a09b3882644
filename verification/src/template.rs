//! Templates: literal text mixed with placeholders in braces.
//!
//! | placeholder   | stands for                         |
//! |---------------|------------------------------------|
//! | `{:last}`     | the last segment of the node id    |
//! | `{:first}`    | the first segment, as `{0}`        |
//! | `{:all}`      | the node id                        |
//! | `{:provider}` | the provider                       |
//! | `{:url}`      | the identifier as it was given     |
//! | `{N}`         | the segment at position N, from 0  |
//!
//! A template is compiled for one of two contexts. In a label, literal text
//! is limited to what a label value may hold, and the rendered value is
//! cleaned and cut to 63 characters. In an annotation any character but a
//! brace is literal text, and the rendered value is left as it is.

use vstd::prelude::*;
use vstd::string::*;
use crate::Error;
use crate::provider_id::{separator_at, IdentifierView, ProviderID};
use crate::text::{
    alphanumeric,
    chars_of,
    describe_invalid_character,
    find_char,
    first_from,
    invalid_character,
    is_alphanumeric,
    is_digit,
    push_char,
};

verus! {

/// Where a rendered value is to be used.
#[derive(Clone, Copy, Debug, PartialEq, Eq)]
pub enum Context {
    Label,
    Annotation,
}

/// One piece of a compiled template.
#[derive(Clone, Copy, Debug, PartialEq, Eq)]
pub enum Token {
    /// `{:last}`
    Last,
    /// `{:first}`
    First,
    /// `{:all}`
    All,
    /// `{:provider}`
    Provider,
    /// `{:url}`
    Url,
    /// `{N}`. A number past `usize::MAX` is held as `usize::MAX`: no
    /// identifier has that many segments.
    Nth(usize),
    /// One character of literal text.
    Literal(char),
}

/// Why a template was refused.
#[derive(Clone, Copy, Debug, PartialEq, Eq)]
pub enum TemplateError {
    /// Braces around `:` and a word that is none of the five keywords.
    UnknownPlaceholder,
    /// A `{` without its `}`, a `}` without its `{`, or braces around
    /// something that is neither `:keyword` nor a number.
    MalformedTemplate,
    /// Literal text holds a character that the context does not allow.
    InvalidCharacter(char),
}

impl TemplateError {
    /// The error in words.
    pub open spec fn message(self) -> Seq<char> {
        match self {
            TemplateError::UnknownPlaceholder => "unknown placeholder"@,
            TemplateError::MalformedTemplate => "malformed template"@,
            TemplateError::InvalidCharacter(c) => invalid_character(c),
        }
    }

    /// The error in words.
    pub fn to_string(&self) -> (r: String)
        ensures
            r@ == self.message(),
    {
        match self {
            TemplateError::UnknownPlaceholder => "unknown placeholder".to_owned(),
            TemplateError::MalformedTemplate => "malformed template".to_owned(),
            TemplateError::InvalidCharacter(c) => describe_invalid_character(*c),
        }
    }
}

/// The longest value of a label.
pub const MAX_LABEL_VALUE_LEN: usize = 63;

/// The characters that literal text may hold.
pub open spec fn is_literal(c: char, context: Context) -> bool {
    c != '{' && c != '}' && match context {
        Context::Label => is_alphanumeric(c) || c == '-' || c == '_' || c == '.',
        Context::Annotation => true,
    }
}

/// Every character of `s` is a decimal digit.
pub open spec fn all_digits(s: Seq<char>) -> bool {
    forall|i: int| 0 <= i < s.len() ==> is_digit(#[trigger] s[i])
}

/// The number that the decimal digits `digits` write.
pub open spec fn decimal(digits: Seq<char>) -> nat
    decreases digits.len(),
{
    if digits.len() == 0 {
        0
    } else {
        (decimal(digits.drop_last()) * 10 + (digits.last() as int - '0' as int)) as nat
    }
}

/// `n`, or `usize::MAX` where `n` is larger.
pub open spec fn saturated(n: nat) -> usize {
    if n > usize::MAX {
        usize::MAX
    } else {
        n as usize
    }
}

/// The placeholder that the word after `{:` names.
pub open spec fn keyword(word: Seq<char>) -> Option<Token> {
    if word == "last"@ {
        Some(Token::Last)
    } else if word == "first"@ {
        Some(Token::First)
    } else if word == "all"@ {
        Some(Token::All)
    } else if word == "provider"@ {
        Some(Token::Provider)
    } else if word == "url"@ {
        Some(Token::Url)
    } else {
        None
    }
}

/// The placeholder with `body` between its braces.
pub open spec fn placeholder(body: Seq<char>) -> Result<Token, TemplateError> {
    if body.len() > 0 && body[0] == ':' {
        match keyword(body.skip(1)) {
            Some(token) => Ok(token),
            None => Err(TemplateError::UnknownPlaceholder),
        }
    } else if body.len() > 0 && all_digits(body) {
        Ok(Token::Nth(saturated(decimal(body))))
    } else {
        Err(TemplateError::MalformedTemplate)
    }
}

/// The token that begins at position `i` of `s`, and the position after it.
/// A placeholder ends at the first `}` after its `{`.
pub open spec fn token_at(s: Seq<char>, i: int, context: Context) -> Result<
    (Token, int),
    TemplateError,
> {
    if s[i] == '{' {
        let close = first_from(s, '}', i + 1);
        if close >= s.len() {
            Err(TemplateError::MalformedTemplate)
        } else {
            match placeholder(s.subrange(i + 1, close)) {
                Ok(token) => Ok((token, close + 1)),
                Err(e) => Err(e),
            }
        }
    } else if s[i] == '}' {
        Err(TemplateError::MalformedTemplate)
    } else if is_literal(s[i], context) {
        Ok((Token::Literal(s[i]), i + 1))
    } else {
        Err(TemplateError::InvalidCharacter(s[i]))
    }
}

/// `tokens` before the outcome of what follows them.
pub open spec fn after(tokens: Seq<Token>, rest: Result<Seq<Token>, TemplateError>) -> Result<
    Seq<Token>,
    TemplateError,
> {
    match rest {
        Ok(more) => Ok(tokens + more),
        Err(e) => Err(e),
    }
}

/// The tokens of `s` from position `i` on, or the first fault met.
pub open spec fn tokens_from(s: Seq<char>, i: int, context: Context) -> Result<
    Seq<Token>,
    TemplateError,
>
    decreases s.len() - i,
    via tokens_from_decreases
{
    if i < 0 || i >= s.len() {
        Ok(Seq::empty())
    } else {
        match token_at(s, i, context) {
            Ok((token, next)) => after(seq![token], tokens_from(s, next, context)),
            Err(e) => Err(e),
        }
    }
}

#[via_fn]
proof fn tokens_from_decreases(s: Seq<char>, i: int, context: Context) {
    if 0 <= i < s.len() {
        crate::text::lemma_first_from(s, '}', i + 1);
    }
}

/// The tokens of the template `s`, read from left to right, or the first
/// fault met.
pub open spec fn tokens(s: Seq<char>, context: Context) -> Result<Seq<Token>, TemplateError> {
    tokens_from(s, 0, context)
}

/// What `token` stands for in the identifier `id`.
pub open spec fn token_text(token: Token, id: IdentifierView) -> Option<Seq<char>> {
    match token {
        Token::Last => Some(id.last()),
        Token::First => id.segment(0),
        Token::All => Some(id.node_id),
        Token::Provider => Some(id.provider),
        Token::Url => Some(id.text),
        Token::Nth(n) => id.segment(n as int),
        Token::Literal(c) => Some(seq![c]),
    }
}

/// The texts of `tokens` one after the other; `None` where one of them asks
/// for a segment that `id` does not have.
pub open spec fn expansion(tokens: Seq<Token>, id: IdentifierView) -> Option<Seq<char>>
    decreases tokens.len(),
{
    if tokens.len() == 0 {
        Some(Seq::empty())
    } else {
        match (expansion(tokens.drop_last(), id), token_text(tokens.last(), id)) {
            (Some(before), Some(text)) => Some(before + text),
            _ => None,
        }
    }
}

/// `s` with every `://` and every other `/` turned into one `_`.
pub open spec fn cleaned(s: Seq<char>) -> Seq<char>
    decreases s.len(),
{
    if s.len() == 0 {
        s
    } else if separator_at(s, 0) {
        seq!['_'] + cleaned(s.skip(3))
    } else if s[0] == '/' {
        seq!['_'] + cleaned(s.skip(1))
    } else {
        seq![s[0]] + cleaned(s.skip(1))
    }
}

/// The value of a label for the rendered text `s`: cleaned, then cut to its
/// first 63 characters.
pub open spec fn label_value(s: Seq<char>) -> Seq<char> {
    if cleaned(s).len() > MAX_LABEL_VALUE_LEN {
        cleaned(s).take(MAX_LABEL_VALUE_LEN as int)
    } else {
        cleaned(s)
    }
}

/// The text that the template `s` gives for the identifier `id`, before
/// anything is done to it for the context.
pub open spec fn rendering(s: Seq<char>, context: Context, id: IdentifierView) -> Result<
    Seq<char>,
    Error,
> {
    match tokens(s, context) {
        Err(e) => Err(Error::TemplateParser(e)),
        Ok(ts) => match expansion(ts, id) {
            Some(text) => Ok(text),
            None => Err(Error::SegmentOutOfRange),
        },
    }
}

/// The value that the template `s` gives for the identifier `id` in its
/// context.
pub open spec fn value(s: Seq<char>, context: Context, id: IdentifierView) -> Result<
    Seq<char>,
    Error,
> {
    match rendering(s, context, id) {
        Ok(text) => Ok(
            match context {
                Context::Label => label_value(text),
                Context::Annotation => text,
            },
        ),
        Err(e) => Err(e),
    }
}

/// Holding a large number at `usize::MAX` changes nothing: for an
/// identifier with no more than `usize::MAX` segments, `{N}` stands for the
/// segment at position N and asks too much exactly where N is not less than
/// the number of segments.
pub proof fn lemma_nth(n: nat, id: IdentifierView)
    requires
        id.segments.len() <= usize::MAX,
    ensures
        token_text(Token::Nth(saturated(n)), id) == id.segment(n as int),
        token_text(Token::Nth(saturated(n)), id) is None <==> n >= id.segments.len(),
{
}

/// A fault at the front of a template is a fault of the template.
pub proof fn lemma_expansion_prefix(tokens: Seq<Token>, id: IdentifierView, k: int)
    requires
        0 <= k <= tokens.len(),
        expansion(tokens.take(k), id) is None,
    ensures
        expansion(tokens, id) is None,
    decreases tokens.len(),
{
    if k < tokens.len() {
        assert(tokens.drop_last().take(k) == tokens.take(k));
        lemma_expansion_prefix(tokens.drop_last(), id, k);
    } else {
        assert(tokens.take(k) == tokens);
    }
}

/// Every character of `s` may stand in literal text.
pub open spec fn all_literal(s: Seq<char>, context: Context) -> bool {
    forall|j: int| 0 <= j < s.len() ==> is_literal(#[trigger] s[j], context)
}

/// The characters of `s` as literal tokens.
pub open spec fn literals(s: Seq<char>) -> Seq<Token> {
    Seq::new(s.len(), |j: int| literal_of(s[j]))
}

/// The character `c` as a literal token.
pub open spec fn literal_of(c: char) -> Token {
    Token::Literal(c)
}

/// Literal text compiles to itself, character for character.
proof fn lemma_literal_tokens(s: Seq<char>, context: Context, i: int)
    requires
        all_literal(s, context),
        0 <= i <= s.len(),
    ensures
        tokens_from(s, i, context) == Ok::<Seq<Token>, TemplateError>(
            literals(s.subrange(i, s.len() as int)),
        ),
    decreases s.len() - i,
{
    if i < s.len() {
        lemma_literal_tokens(s, context, i + 1);
        assert(is_literal(s[i], context));
        assert(seq![Token::Literal(s[i])] + literals(s.subrange(i + 1, s.len() as int))
            == literals(s.subrange(i, s.len() as int)));
    } else {
        assert(literals(s.subrange(i, s.len() as int)) == Seq::<Token>::empty());
    }
}

/// Literal tokens expand to their characters.
proof fn lemma_literal_expansion(s: Seq<char>, id: IdentifierView)
    ensures
        expansion(literals(s), id) == Some(s),
    decreases s.len(),
{
    if s.len() > 0 {
        lemma_literal_expansion(s.drop_last(), id);
        assert(literals(s).drop_last() == literals(s.drop_last()));
        assert(s.drop_last() + seq![s.last()] == s);
    } else {
        assert(s == Seq::<char>::empty());
    }
}

/// Text without `/` is clean as it is.
proof fn lemma_cleaned_plain(s: Seq<char>)
    requires
        forall|j: int| 0 <= j < s.len() ==> s[j] != '/',
    ensures
        cleaned(s) == s,
    decreases s.len(),
{
    if s.len() > 0 {
        lemma_cleaned_plain(s.skip(1));
        assert(seq![s[0]] + s.skip(1) == s);
    }
}

/// A template without placeholders renders to its own text, whatever the
/// identifier: unchanged in an annotation, and cut to its first 63
/// characters in a label.
pub proof fn lemma_plain_template(s: Seq<char>, context: Context, id: IdentifierView)
    requires
        all_literal(s, context),
    ensures
        tokens(s, context) == Ok::<Seq<Token>, TemplateError>(literals(s)),
        rendering(s, context, id) == Ok::<Seq<char>, Error>(s),
        value(s, context, id) == Ok::<Seq<char>, Error>(
            match context {
                Context::Label => if s.len() > 63 {
                    s.take(63)
                } else {
                    s
                },
                Context::Annotation => s,
            },
        ),
{
    lemma_literal_tokens(s, context, 0);
    assert(s.subrange(0, s.len() as int) == s);
    lemma_literal_expansion(s, id);
    if context == Context::Label {
        assert forall|j: int| 0 <= j < s.len() implies s[j] != '/' by {
            assert(is_literal(s[j], context));
        }
        lemma_cleaned_plain(s);
    }
}

/// A label value has at most 63 characters and holds no `/`.
pub proof fn lemma_label_value(s: Seq<char>)
    ensures
        label_value(s).len() <= 63,
        forall|j: int| 0 <= j < label_value(s).len() ==> label_value(s)[j] != '/',
{
    lemma_cleaned(s);
}

/// Cleaned text holds no `/`.
proof fn lemma_cleaned(s: Seq<char>)
    ensures
        forall|j: int| 0 <= j < cleaned(s).len() ==> cleaned(s)[j] != '/',
    decreases s.len(),
{
    if s.len() > 0 {
        let rest = if separator_at(s, 0) {
            s.skip(3)
        } else {
            s.skip(1)
        };
        lemma_cleaned(rest);
        assert forall|j: int| 0 <= j < cleaned(s).len() implies cleaned(s)[j] != '/' by {
            if j > 0 {
                assert(cleaned(s)[j] == cleaned(rest)[j - 1]);
            }
        }
    }
}

/// Whether `c` may stand in literal text.
fn literal(c: char, context: Context) -> (r: bool)
    ensures
        r == is_literal(c, context),
{
    c != '{' && c != '}' && match context {
        Context::Label => alphanumeric(c) || c == '-' || c == '_' || c == '.',
        Context::Annotation => true,
    }
}

/// Whether `v` holds `word` from `from` up to `to`.
fn holds_word(v: &Vec<char>, from: usize, to: usize, word: &str) -> (r: bool)
    requires
        from <= to <= v.len(),
    ensures
        r == (v@.subrange(from as int, to as int) == word@),
{
    let w = chars_of(word);
    if w.len() != to - from {
        return false;
    }
    let mut i: usize = 0;
    while i < w.len()
        invariant
            from <= to <= v.len(),
            w.len() == to - from,
            w@ == word@,
            i <= w.len(),
            forall|j: int| 0 <= j < i ==> v@[from + j] == w@[j],
        decreases w.len() - i,
    {
        if v[from + i] != w[i] {
            assert(v@.subrange(from as int, to as int)[i as int] != word@[i as int]);
            return false;
        }
        i += 1;
    }
    assert(v@.subrange(from as int, to as int) =~= word@);
    true
}

/// The value of the decimal digit `c`.
fn digit_value(c: char) -> (r: usize)
    requires
        is_digit(c),
    ensures
        r == c as int - '0' as int,
{
    (c as u32 - '0' as u32) as usize
}

/// Reads the digits of `v` from `from` up to `to` as a number, holding it at
/// `usize::MAX` once it has grown past that; `None` where a character is no
/// digit, or there is none.
fn read_index(v: &Vec<char>, from: usize, to: usize) -> (r: Option<usize>)
    requires
        from <= to <= v.len(),
    ensures
        match r {
            Some(n) => from < to && all_digits(v@.subrange(from as int, to as int)) && n
                == saturated(decimal(v@.subrange(from as int, to as int))),
            None => !(from < to && all_digits(v@.subrange(from as int, to as int))),
        },
{
    if from == to {
        return None;
    }
    let mut n: usize = 0;
    let mut i: usize = from;
    while i < to
        invariant
            from <= i <= to <= v.len(),
            all_digits(v@.subrange(from as int, i as int)),
            n == saturated(decimal(v@.subrange(from as int, i as int))),
        decreases to - i,
    {
        let c = v[i];
        if !('0' <= c && c <= '9') {
            assert(v@.subrange(from as int, to as int)[i - from] == c);
            return None;
        }
        let d = digit_value(c);
        let ghost before = v@.subrange(from as int, i as int);
        let ghost now = v@.subrange(from as int, i + 1);
        assert(now.drop_last() == before);
        assert(now.last() == c);
        n = match n.checked_mul(10) {
            Some(tens) => match tens.checked_add(d) {
                Some(sum) => sum,
                None => usize::MAX,
            },
            None => usize::MAX,
        };
        i += 1;
    }
    Some(n)
}

/// Reads what stands between the braces of a placeholder.
fn read_placeholder(v: &Vec<char>, from: usize, to: usize) -> (r: Result<Token, TemplateError>)
    requires
        from <= to <= v.len(),
    ensures
        r == placeholder(v@.subrange(from as int, to as int)),
{
    let ghost body = v@.subrange(from as int, to as int);
    if from < to && v[from] == ':' {
        assert(body[0] == ':');
        assert(body.skip(1) == v@.subrange(from + 1, to as int));
        if holds_word(v, from + 1, to, "last") {
            Ok(Token::Last)
        } else if holds_word(v, from + 1, to, "first") {
            Ok(Token::First)
        } else if holds_word(v, from + 1, to, "all") {
            Ok(Token::All)
        } else if holds_word(v, from + 1, to, "provider") {
            Ok(Token::Provider)
        } else if holds_word(v, from + 1, to, "url") {
            Ok(Token::Url)
        } else {
            Err(TemplateError::UnknownPlaceholder)
        }
    } else {
        assert(from < to ==> body[0] == v@[from as int]);
        match read_index(v, from, to) {
            Some(n) => Ok(Token::Nth(n)),
            None => Err(TemplateError::MalformedTemplate),
        }
    }
}

/// Compiles `template` for `context`: its tokens from left to right, or the
/// first fault met.
pub fn compile(template: &str, context: Context) -> (r: Result<Vec<Token>, TemplateError>)
    ensures
        match r {
            Ok(compiled) => tokens(template@, context) == Ok::<Seq<Token>, TemplateError>(
                compiled@,
            ),
            Err(e) => tokens(template@, context) == Err::<Seq<Token>, TemplateError>(e),
        },
{
    let v = chars_of(template);
    let n = v.len();
    let mut compiled: Vec<Token> = Vec::new();
    let mut i: usize = 0;
    while i < n
        invariant
            v@ == template@,
            n == v.len(),
            i <= n,
            tokens(v@, context) == after(compiled@, tokens_from(v@, i as int, context)),
        decreases n - i,
    {
        let c = v[i];
        let ghost before = compiled@;
        if c == '{' {
            let close = find_char(&v, '}', i + 1);
            if close >= n {
                return Err(TemplateError::MalformedTemplate);
            }
            match read_placeholder(&v, i + 1, close) {
                Ok(token) => {
                    compiled.push(token);
                    proof {
                        let rest = tokens_from(v@, close + 1, context);
                        assert(after(before, after(seq![token], rest)) == after(
                            compiled@,
                            rest,
                        )) by {
                            if let Ok(more) = rest {
                                assert(before + (seq![token] + more) == compiled@ + more);
                            }
                        }
                    }
                    i = close + 1;
                },
                Err(e) => {
                    return Err(e);
                },
            }
        } else if c == '}' {
            return Err(TemplateError::MalformedTemplate);
        } else if literal(c, context) {
            compiled.push(Token::Literal(c));
            proof {
                let rest = tokens_from(v@, i + 1, context);
                assert(after(before, after(seq![Token::Literal(c)], rest)) == after(
                    compiled@,
                    rest,
                )) by {
                    if let Ok(more) = rest {
                        assert(before + (seq![Token::Literal(c)] + more) == compiled@ + more);
                    }
                }
            }
            i += 1;
        } else {
            return Err(TemplateError::InvalidCharacter(c));
        }
    }
    assert(compiled@ + Seq::<Token>::empty() == compiled@);
    Ok(compiled)
}

/// Puts the texts of `tokens` for `provider_id` one after the other.
pub fn expand(tokens: &Vec<Token>, provider_id: &ProviderID) -> (r: Result<String, Error>)
    ensures
        match r {
            Ok(text) => expansion(tokens@, provider_id@) == Some(text@),
            Err(e) => e == Error::SegmentOutOfRange && expansion(tokens@, provider_id@)
                is None,
        },
{
    let ghost id = provider_id@;
    let mut output = String::new();
    let mut i: usize = 0;
    while i < tokens.len()
        invariant
            i <= tokens.len(),
            id == provider_id@,
            expansion(tokens@.take(i as int), id) == Some(output@),
        decreases tokens.len() - i,
    {
        proof {
            assert(tokens@.take(i + 1).drop_last() == tokens@.take(i as int));
            assert(tokens@.take(i + 1).last() == tokens@[i as int]);
        }
        let part: Option<String> = match tokens[i] {
            Token::Last => Some(provider_id.last()),
            Token::First => provider_id.nth(0),
            Token::All => Some(provider_id.node_id()),
            Token::Provider => Some(provider_id.provider()),
            Token::Url => Some(provider_id.to_string()),
            Token::Nth(n) => provider_id.nth(n),
            Token::Literal(c) => {
                let mut one = String::new();
                push_char(&mut one, c);
                assert(one@ == seq![c]);
                Some(one)
            },
        };
        match part {
            Some(text) => {
                output.append(text.as_str());
            },
            None => {
                proof {
                    lemma_expansion_prefix(tokens@, id, i + 1);
                }
                return Err(Error::SegmentOutOfRange);
            },
        }
        i += 1;
    }
    assert(tokens@.take(i as int) == tokens@);
    Ok(output)
}

/// Makes a label value of `text`: every `://` and every other `/` becomes
/// one `_`, and what is longer than 63 characters is cut there.
pub fn sanitize(text: &str) -> (r: String)
    ensures
        r@ == label_value(text@),
{
    let v = chars_of(text);
    let n = v.len();
    let mut output = String::new();
    let mut count: usize = 0;
    let mut i: usize = 0;
    assert(v@.skip(0) == v@);
    assert(output@ + cleaned(v@) == cleaned(v@));
    while i < n && count < MAX_LABEL_VALUE_LEN
        invariant
            v@ == text@,
            n == v.len(),
            i <= n,
            count == output@.len(),
            count <= MAX_LABEL_VALUE_LEN,
            cleaned(v@) == output@ + cleaned(v@.skip(i as int)),
        decreases n - i,
    {
        let ghost rest = v@.skip(i as int);
        let ghost before = output@;
        assert(rest[0] == v@[i as int]);
        if n - i >= 3 && v[i] == ':' && v[i + 1] == '/' && v[i + 2] == '/' {
            assert(rest[1] == v@[i + 1] && rest[2] == v@[i + 2]);
            assert(rest.skip(3) == v@.skip(i + 3));
            push_char(&mut output, '_');
            assert(before + (seq!['_'] + cleaned(rest.skip(3))) == output@ + cleaned(
                rest.skip(3),
            ));
            i += 3;
        } else {
            assert(rest.skip(1) == v@.skip(i + 1));
            assert(!separator_at(rest, 0)) by {
                if rest.len() >= 3 {
                    assert(rest[1] == v@[i + 1] && rest[2] == v@[i + 2]);
                }
            }
            let c = if v[i] == '/' {
                '_'
            } else {
                v[i]
            };
            push_char(&mut output, c);
            assert(before + (seq![c] + cleaned(rest.skip(1))) == output@ + cleaned(rest.skip(1)));
            i += 1;
        }
        count += 1;
    }
    proof {
        let rest = cleaned(v@.skip(i as int));
        if i == n {
            assert(rest.len() == 0);
            assert(output@ + rest == output@);
        } else {
            assert((output@ + rest).take(MAX_LABEL_VALUE_LEN as int) == output@);
        }
    }
    output
}

/// Checks that `template` can be compiled for `context`.
pub fn validate_template(template: &str, context: Context) -> (r: Result<(), Error>)
    ensures
        match r {
            Ok(_) => tokens(template@, context) is Ok,
            Err(e) => tokens(template@, context) matches Err(fault) && e == Error::TemplateParser(
                fault,
            ),
        },
{
    match compile(template, context) {
        Ok(_) => Ok(()),
        Err(e) => Err(Error::TemplateParser(e)),
    }
}

/// Compiles `template` for `context` and renders it for `provider_id`,
/// without cleaning or cutting the outcome.
pub fn do_render(template: &str, provider_id: &ProviderID, context: Context) -> (r: Result<
    String,
    Error,
>)
    ensures
        match r {
            Ok(text) => rendering(template@, context, provider_id@) == Ok::<
                Seq<char>,
                Error,
            >(text@),
            Err(e) => rendering(template@, context, provider_id@) == Err::<
                Seq<char>,
                Error,
            >(e),
        },
{
    match compile(template, context) {
        Ok(compiled) => expand(&compiled, provider_id),
        Err(e) => Err(Error::TemplateParser(e)),
    }
}

/// A compiled template that renders values for an identifier.
pub trait Template: Sized {
    /// The context that templates of this type are compiled for.
    spec fn context() -> Context;

    /// The text that the template was compiled from.
    spec fn format(&self) -> Seq<char>;

    /// Compiles `s`, or says why it is no template for this context.
    fn from_str(s: &str) -> (r: Result<Self, Error>)
        ensures
            match r {
                Ok(template) => tokens(s@, Self::context()) is Ok && template.format() == s@,
                Err(e) => tokens(s@, Self::context()) matches Err(fault) && e
                    == Error::TemplateParser(fault),
            },
    ;

    /// The value for `provider_id`. It fails only where the template asks
    /// for a segment that the identifier does not have.
    fn render(&self, provider_id: &ProviderID) -> (r: Result<String, Error>)
        ensures
            tokens(self.format(), Self::context()) is Ok,
            match r {
                Ok(text) => value(self.format(), Self::context(), provider_id@) == Ok::<
                    Seq<char>,
                    Error,
                >(text@),
                Err(e) => value(self.format(), Self::context(), provider_id@) == Err::<
                    Seq<char>,
                    Error,
                >(e),
            },
    ;
}

/// A template for the value of a label.
#[derive(Debug)]
pub struct LabelTemplate {
    format: String,
    compiled: Vec<Token>,
}

impl LabelTemplate {
    #[verifier::type_invariant]
    spec fn valid(&self) -> bool {
        tokens(self.format@, Context::Label) == Ok::<Seq<Token>, TemplateError>(self.compiled@)
    }
}

impl Template for LabelTemplate {
    open spec fn context() -> Context {
        Context::Label
    }

    closed spec fn format(&self) -> Seq<char> {
        self.format@
    }

    fn from_str(s: &str) -> (r: Result<Self, Error>) {
        match compile(s, Context::Label) {
            Ok(compiled) => Ok(LabelTemplate { format: s.to_owned(), compiled }),
            Err(e) => Err(Error::TemplateParser(e)),
        }
    }

    fn render(&self, provider_id: &ProviderID) -> (r: Result<String, Error>) {
        proof {
            use_type_invariant(self);
        }
        match expand(&self.compiled, provider_id) {
            Ok(text) => Ok(sanitize(text.as_str())),
            Err(e) => Err(e),
        }
    }
}

impl Default for LabelTemplate {
    /// The template without text.
    fn default() -> (r: Self)
        ensures
            r.format() == Seq::<char>::empty(),
    {
        LabelTemplate { format: String::new(), compiled: Vec::new() }
    }
}

/// A template for the value of an annotation.
#[derive(Debug)]
pub struct AnnotationTemplate {
    format: String,
    compiled: Vec<Token>,
}

impl AnnotationTemplate {
    #[verifier::type_invariant]
    spec fn valid(&self) -> bool {
        tokens(self.format@, Context::Annotation) == Ok::<Seq<Token>, TemplateError>(
            self.compiled@,
        )
    }
}

impl Template for AnnotationTemplate {
    open spec fn context() -> Context {
        Context::Annotation
    }

    closed spec fn format(&self) -> Seq<char> {
        self.format@
    }

    fn from_str(s: &str) -> (r: Result<Self, Error>) {
        match compile(s, Context::Annotation) {
            Ok(compiled) => Ok(AnnotationTemplate { format: s.to_owned(), compiled }),
            Err(e) => Err(Error::TemplateParser(e)),
        }
    }

    fn render(&self, provider_id: &ProviderID) -> (r: Result<String, Error>) {
        proof {
            use_type_invariant(self);
        }
        expand(&self.compiled, provider_id)
    }
}

impl Default for AnnotationTemplate {
    /// The template without text.
    fn default() -> (r: Self)
        ensures
            r.format() == Seq::<char>::empty(),
    {
        AnnotationTemplate { format: String::new(), compiled: Vec::new() }
    }
}

} // verus!
