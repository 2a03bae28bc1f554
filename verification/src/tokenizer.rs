//! Splits expression text into tokens by trying a fixed list of anchored
//! patterns at the start of what is left of the text.

use crate::parser::OperatorType;
use crate::parser::boolean_of;
use crate::parser::operator_of;
use crate::parser::recognize_boolean;
use crate::single;
use crate::text::characters;
use regex::Regex;
use vstd::prelude::*;

verus! {

/// One or more blanks, tabs, line feeds or carriage returns.
pub const WHITESPACE_REGEX: &'static str = "^[ \\t\\n\\r]+";

/// One operator; those of two characters come before their first character
/// alone, so that `<=` is not read as `<` and `=`.
pub const OPERATOR_REGEX: &'static str = "^(\\+|-|\\*|/|&&|\\|\\||<=|>=|<|>|=)";

/// Digits, optionally followed by a point and digits.
pub const NUMBER_REGEX: &'static str = "^([0-9]+(?:\\.[0-9]+)?)";

/// `true` or `false`.
pub const BOOLEAN_REGEX: &'static str = "^(true|false)";

/// A name in braces: one or more characters other than `}`. The group is
/// the name without the braces.
pub const VARIABLE_REGEX: &'static str = "^\\{([^}]+)\\}";

/// `(` or `)`.
pub const PARENTHESIS_REGEX: &'static str = "^(\\(|\\))";

/// The kinds of token. Whitespace is matched like the others and dropped.
#[derive(Debug, PartialEq, Eq, Structural, Clone, Copy)]
pub enum TokenType {
    Whitespace,
    Operator,
    Number,
    Boolean,
    Variable,
    Parenthesis,
}

/// A token: its kind and its literal text.
#[derive(Debug, PartialEq, Eq, Clone)]
pub struct Token {
    pub token_type: TokenType,
    pub value: String,
}

/// The tokens of a text, in their order.
pub type TokenList = Vec<Token>;

/// A token as contracts see it.
pub struct TokenView {
    pub token_type: TokenType,
    pub value: Seq<char>,
}

impl View for Token {
    type V = TokenView;

    open spec fn view(&self) -> TokenView {
        TokenView { token_type: self.token_type, value: self.value@ }
    }
}

impl DeepView for Token {
    type V = TokenView;

    open spec fn deep_view(&self) -> TokenView {
        self@
    }
}

/// `regex::Regex`, a compiled pattern. Nothing inside it is seen here.
#[verifier::external_type_specification]
#[verifier::external_body]
pub struct ExRegex(regex::Regex);

/// `regex::Error`, the reason why a pattern does not compile. Nothing inside
/// it is seen here.
#[verifier::external_type_specification]
#[verifier::external_body]
pub struct ExRegexError(regex::Error);

/// The pattern that `Regex::new` built a regex from.
pub uninterp spec fn source(regex: Regex) -> Seq<char>;

/// What the regex that `Regex::new` builds from a pattern captures in a
/// text: nothing where the pattern does not match, else the text of the
/// leftmost match and of its first group.
pub uninterp spec fn captures(pattern: Seq<char>, text: Seq<char>) -> Option<CapturedView>;

/// The texts that one match hands over.
pub struct Captured {
    /// The whole match.
    pub whole: String,
    /// The first capture group, where the pattern has one and it took part.
    pub group: Option<String>,
}

/// The texts of a match as contracts see them.
pub struct CapturedView {
    pub whole: Seq<char>,
    pub group: Option<Seq<char>>,
}

impl View for Captured {
    type V = CapturedView;

    open spec fn view(&self) -> CapturedView {
        CapturedView {
            whole: self.whole@,
            group: match self.group {
                Some(text) => Some(text@),
                None => None,
            },
        }
    }
}

/// Whether a pattern is one of those that the tokenizer is built from.
pub open spec fn is_lexical_pattern(pattern: Seq<char>) -> bool {
    ||| pattern == WHITESPACE_REGEX@
    ||| pattern == OPERATOR_REGEX@
    ||| pattern == NUMBER_REGEX@
    ||| pattern == BOOLEAN_REGEX@
    ||| pattern == VARIABLE_REGEX@
    ||| pattern == PARENTHESIS_REGEX@
}

/// `Regex::new`. Not proved: that each of the tokenizer's six patterns is
/// valid syntax and within the size limit, so that it compiles; and that the
/// regex is the one of that pattern.
#[verifier::external_body]
fn compile(pattern: &str) -> (compiled: Result<Regex, regex::Error>)
    requires
        is_lexical_pattern(pattern@),
    ensures
        match compiled {
            Ok(regex) => source(regex) == pattern@,
            Err(_) => false,
        },
{
    Regex::new(pattern)
}

/// `Regex::captures`, with `Captures::get_match` and `Captures::get(1)`, on
/// a regex that `Regex::new` built. Not proved: that the texts captured are a
/// function of the pattern and of the text searched. Which texts these are
/// is not stated anywhere.
#[verifier::external_body]
fn capture(regex: &Regex, text: &str) -> (found: Option<Captured>)
    ensures
        match found {
            Some(captured) => captures(source(*regex), text@) == Some(captured@),
            None => captures(source(*regex), text@) is None,
        },
{
    match regex.captures(text) {
        Some(caps) => {
            let group = match caps.get(1) {
                Some(group) => Some(group.as_str().to_owned()),
                None => None,
            };
            Some(Captured { whole: caps.get_match().as_str().to_owned(), group })
        },
        None => None,
    }
}

/// One lexical form: the pattern that finds it and the kind of token it makes.
pub struct LexicalForm {
    pub pattern: Seq<char>,
    pub token_type: TokenType,
}

/// The forms in the order in which they are tried: the first that matches
/// wins.
pub open spec fn lexical_forms() -> Seq<LexicalForm> {
    seq![
        LexicalForm { pattern: WHITESPACE_REGEX@, token_type: TokenType::Whitespace },
        LexicalForm { pattern: OPERATOR_REGEX@, token_type: TokenType::Operator },
        LexicalForm { pattern: NUMBER_REGEX@, token_type: TokenType::Number },
        LexicalForm { pattern: BOOLEAN_REGEX@, token_type: TokenType::Boolean },
        LexicalForm { pattern: VARIABLE_REGEX@, token_type: TokenType::Variable },
        LexicalForm { pattern: PARENTHESIS_REGEX@, token_type: TokenType::Parenthesis },
    ]
}

/// Whether a text is a literal of the given kind: an operator, a decimal
/// number, `true` or `false`, a variable name (not empty, without `}`), or
/// one parenthesis. A whitespace token has no literal.
pub open spec fn is_literal(token_type: TokenType, text: Seq<char>) -> bool {
    match token_type {
        TokenType::Whitespace => false,
        TokenType::Operator => operator_of(text) is Some,
        TokenType::Number => single::is_decimal_literal(text),
        TokenType::Boolean => boolean_of(text) is Some,
        TokenType::Variable => text.len() > 0 && forall|i: int|
            0 <= i < text.len() ==> #[trigger] text[i] != '}',
        TokenType::Parenthesis => text.len() == 1 && (text[0] == '(' || text[0] == ')'),
    }
}

/// Whether every token carries a literal of its kind.
pub open spec fn well_formed(tokens: Seq<TokenView>) -> bool {
    forall|i: int|
        0 <= i < tokens.len() ==> is_literal(
            (#[trigger] tokens[i]).token_type,
            tokens[i].value,
        )
}

/// One step of the scan: how many characters it takes, and the token it
/// makes of them unless they are whitespace.
pub struct Lexeme {
    pub consumed: usize,
    pub token: Option<Token>,
}

/// One step of the scan as contracts see it.
pub struct LexemeView {
    pub consumed: nat,
    pub token: Option<TokenView>,
}

impl View for Lexeme {
    type V = LexemeView;

    open spec fn view(&self) -> LexemeView {
        LexemeView {
            consumed: self.consumed as nat,
            token: match self.token {
                Some(token) => Some(token@),
                None => None,
            },
        }
    }
}

/// Whether a character is whitespace: a blank, a tab, a line feed or a
/// carriage return.
pub open spec fn is_blank(c: char) -> bool {
    c == ' ' || c == '\t' || c == '\n' || c == '\r'
}

/// Whether every character is whitespace.
pub open spec fn all_blank(text: Seq<char>) -> bool {
    forall|i: int| 0 <= i < text.len() ==> is_blank(#[trigger] text[i])
}

/// How a token is written in the text: a variable in braces, anything else
/// as its literal.
pub open spec fn spelled(token: TokenView) -> Seq<char> {
    if token.token_type is Variable {
        seq!['{'] + token.value + seq!['}']
    } else {
        token.value
    }
}

/// What the tokenizer makes of a match, given the text that is left. The
/// match counts only if it is not empty and stands at the start of the text.
/// As whitespace it must be whitespace throughout. As anything else, its
/// first group must be a literal of the kind, and the match must be that
/// literal as it is written.
pub open spec fn accepted(
    token_type: TokenType,
    captured: CapturedView,
    rest: Seq<char>,
) -> Option<LexemeView> {
    if captured.whole.len() == 0 || !captured.whole.is_prefix_of(rest) {
        None
    } else if token_type == TokenType::Whitespace {
        if all_blank(captured.whole) {
            Some(LexemeView { consumed: captured.whole.len(), token: None })
        } else {
            None
        }
    } else {
        match captured.group {
            Some(text) if is_literal(token_type, text) && spelled(
                TokenView { token_type, value: text },
            ) == captured.whole => Some(
                LexemeView {
                    consumed: captured.whole.len(),
                    token: Some(TokenView { token_type, value: text }),
                },
            ),
            _ => None,
        }
    }
}

/// What one form finds at the start of the text that is left.
pub open spec fn form_match(form: LexicalForm, rest: Seq<char>) -> Option<LexemeView> {
    match captures(form.pattern, rest) {
        Some(captured) => accepted(form.token_type, captured, rest),
        None => None,
    }
}

/// What the first form that matches finds at the start of the text that is
/// left.
pub open spec fn first_match(forms: Seq<LexicalForm>, rest: Seq<char>) -> Option<LexemeView>
    decreases forms.len(),
{
    if forms.len() == 0 {
        None
    } else {
        match form_match(forms[0], rest) {
            Some(lexeme) => Some(lexeme),
            None => first_match(forms.drop_first(), rest),
        }
    }
}

/// A match takes at least one character and no more than are left: either
/// whitespace, or a token that carries a literal of its kind, written at the
/// start of the text that is left.
pub proof fn lemma_first_match_fits(forms: Seq<LexicalForm>, rest: Seq<char>)
    ensures
        first_match(forms, rest) matches Some(lexeme) ==> {
            &&& 0 < lexeme.consumed <= rest.len()
            &&& match lexeme.token {
                Some(token) => is_literal(token.token_type, token.value) && spelled(token)
                    == rest.subrange(0, lexeme.consumed as int),
                None => all_blank(rest.subrange(0, lexeme.consumed as int)),
            }
        },
    decreases forms.len(),
{
    if forms.len() > 0 && form_match(forms[0], rest) is None {
        lemma_first_match_fits(forms.drop_first(), rest);
    }
}

/// The scan from left to right: the tokens made so far, then those of the
/// text that is left; or the text that is left where no form matches it.
pub open spec fn lex_from(forms: Seq<LexicalForm>, rest: Seq<char>, done: Seq<TokenView>) -> Result<
    Seq<TokenView>,
    Seq<char>,
>
    decreases rest.len(),
{
    if rest.len() == 0 {
        Ok(done)
    } else {
        match first_match(forms, rest) {
            Some(lexeme) if 0 < lexeme.consumed <= rest.len() => lex_from(
                forms,
                rest.skip(lexeme.consumed as int),
                match lexeme.token {
                    Some(token) => done.push(token),
                    None => done,
                },
            ),
            _ => Err(rest),
        }
    }
}

/// The tokens of a text, or the text that was left where the scan stopped.
pub open spec fn lex(forms: Seq<LexicalForm>, text: Seq<char>) -> Result<Seq<TokenView>, Seq<char>> {
    lex_from(forms, text, Seq::empty())
}

/// Whether the tokens are what the text holds, from left to right, with
/// nothing but whitespace before, between and after them.
pub open spec fn spells(text: Seq<char>, tokens: Seq<TokenView>) -> bool
    decreases text.len(),
{
    if text.len() == 0 {
        tokens.len() == 0
    } else if is_blank(text[0]) {
        spells(text.skip(1), tokens)
    } else {
        &&& tokens.len() > 0
        &&& spelled(tokens[0]).len() > 0
        &&& spelled(tokens[0]).is_prefix_of(text)
        &&& spells(text.skip(spelled(tokens[0]).len() as int), tokens.drop_first())
    }
}

/// Whitespace at the start of a text holds no token.
pub proof fn lemma_blanks_hold_no_token(text: Seq<char>, blanks: int, tokens: Seq<TokenView>)
    requires
        0 <= blanks <= text.len(),
        all_blank(text.subrange(0, blanks)),
    ensures
        spells(text, tokens) == spells(text.skip(blanks), tokens),
    decreases blanks,
{
    if blanks == 0 {
        assert(text.skip(0) =~= text);
    } else {
        assert(text.subrange(0, blanks)[0] == text[0]);
        let rest = text.skip(1);
        assert(all_blank(rest.subrange(0, blanks - 1))) by {
            assert forall|i: int| 0 <= i < blanks - 1 implies is_blank(
                #[trigger] rest.subrange(0, blanks - 1)[i],
            ) by {
                assert(rest.subrange(0, blanks - 1)[i] == text.subrange(0, blanks)[i + 1]);
            }
        }
        lemma_blanks_hold_no_token(rest, blanks - 1, tokens);
        assert(rest.skip(blanks - 1) =~= text.skip(blanks));
    }
}

/// A token is not written as nothing, and does not start with whitespace.
pub proof fn lemma_literal_starts_a_token(token: TokenView)
    requires
        is_literal(token.token_type, token.value),
    ensures
        spelled(token).len() > 0,
        !is_blank(spelled(token)[0]),
{
    match token.token_type {
        TokenType::Number => {
            let whole = choose|whole: int| single::splits_as_decimal(token.value, whole);
            assert(single::is_digit(token.value[0]));
        },
        TokenType::Boolean => {
            let yes = seq!['t', 'r', 'u', 'e'];
            let no = seq!['f', 'a', 'l', 's', 'e'];
            assert(yes[0] == 't' && no[0] == 'f');
        },
        _ => {},
    }
}

/// The tokens that a scan adds are those that the text holds, each a
/// literal of its kind.
pub proof fn lemma_scan_spells(forms: Seq<LexicalForm>, rest: Seq<char>, done: Seq<TokenView>)
    ensures
        lex_from(forms, rest, done) matches Ok(tokens) ==> {
            &&& done.len() <= tokens.len()
            &&& tokens.subrange(0, done.len() as int) == done
            &&& spells(rest, tokens.skip(done.len() as int))
            &&& well_formed(tokens.skip(done.len() as int))
        },
    decreases rest.len(),
{
    match lex_from(forms, rest, done) {
        Ok(tokens) => {
            if rest.len() == 0 {
                assert(tokens.subrange(0, done.len() as int) =~= done);
                assert(tokens.skip(done.len() as int) =~= Seq::empty());
            } else {
                lemma_first_match_fits(forms, rest);
                let lexeme = first_match(forms, rest)->0;
                let consumed = lexeme.consumed as int;
                let left = rest.skip(consumed);
                match lexeme.token {
                    Some(token) => {
                        let more = done.push(token);
                        lemma_scan_spells(forms, left, more);
                        lemma_literal_starts_a_token(token);
                        let added = tokens.skip(done.len() as int);
                        assert(tokens.subrange(0, more.len() as int)[done.len() as int]
                            == more[done.len() as int]);
                        assert(added[0] == token);
                        assert(added.drop_first() =~= tokens.skip(more.len() as int));
                        assert(tokens.subrange(0, done.len() as int) =~= done) by {
                            assert forall|i: int| 0 <= i < done.len() implies tokens[i]
                                == done[i] by {
                                assert(tokens.subrange(0, more.len() as int)[i] == more[i]);
                            }
                        }
                        assert(spelled(token) == rest.subrange(0, consumed));
                        assert(rest[0] == spelled(token)[0]);
                        assert(well_formed(added)) by {
                            assert forall|i: int| 0 <= i < added.len() implies is_literal(
                                (#[trigger] added[i]).token_type,
                                added[i].value,
                            ) by {
                                if i > 0 {
                                    assert(added[i] == tokens.skip(more.len() as int)[i - 1]);
                                }
                            }
                        }
                    },
                    None => {
                        lemma_scan_spells(forms, left, done);
                        lemma_blanks_hold_no_token(
                            rest,
                            consumed,
                            tokens.skip(done.len() as int),
                        );
                    },
                }
            }
        },
        Err(_) => {},
    }
}

/// The tokens of a text are what the text holds: each is a literal of its
/// kind, they are written in the text in their order, and nothing but
/// whitespace stands before, between and after them.
pub proof fn lemma_tokens_spell_the_text(forms: Seq<LexicalForm>, text: Seq<char>)
    ensures
        lex(forms, text) matches Ok(tokens) ==> spells(text, tokens) && well_formed(tokens),
{
    lemma_scan_spells(forms, text, Seq::empty());
    match lex(forms, text) {
        Ok(tokens) => {
            assert(tokens.skip(0) =~= tokens);
        },
        Err(_) => {},
    }
}

/// Where a scan stops, what is left is not empty and is the end of the
/// text.
pub proof fn lemma_scan_stops_in_the_text(
    forms: Seq<LexicalForm>,
    rest: Seq<char>,
    done: Seq<TokenView>,
)
    ensures
        lex_from(forms, rest, done) matches Err(left) ==> left.len() > 0 && left.is_suffix_of(
            rest,
        ),
    decreases rest.len(),
{
    match lex_from(forms, rest, done) {
        Err(left) => {
            if rest.len() > 0 {
                match first_match(forms, rest) {
                    Some(lexeme) if 0 < lexeme.consumed <= rest.len() => {
                        let after = rest.skip(lexeme.consumed as int);
                        let more = match lexeme.token {
                            Some(token) => done.push(token),
                            None => done,
                        };
                        lemma_scan_stops_in_the_text(forms, after, more);
                        assert(left =~= rest.subrange(rest.len() - left.len(), rest.len() as int))
                            by {
                            assert(left == after.subrange(
                                after.len() - left.len(),
                                after.len() as int,
                            ));
                        }
                    },
                    _ => {
                        assert(rest =~= rest.subrange(0, rest.len() as int));
                    },
                }
            }
        },
        Ok(_) => {},
    }
}

/// Decides whether a text is a literal of the given kind.
pub fn literal(token_type: TokenType, text: &str) -> (ok: bool)
    ensures
        ok == is_literal(token_type, text@),
{
    match token_type {
        TokenType::Whitespace => false,
        TokenType::Operator => OperatorType::recognize(text).is_some(),
        TokenType::Number => single::decimal_literal(text),
        TokenType::Boolean => recognize_boolean(text).is_some(),
        TokenType::Variable => {
            let chars = characters(text);
            let mut i: usize = 0;
            while i < chars.len()
                invariant
                    i <= chars@.len(),
                    chars@ == text@,
                    forall|k: int| 0 <= k < i ==> #[trigger] chars@[k] != '}',
                decreases chars.len() - i,
            {
                if chars[i] == '}' {
                    assert(chars@[i as int] == '}');
                    return false;
                }
                i += 1;
            }
            chars.len() > 0
        },
        TokenType::Parenthesis => {
            let chars = characters(text);
            chars.len() == 1 && (chars[0] == '(' || chars[0] == ')')
        },
    }
}

/// Decides whether `length` characters of one text, from `start`, are
/// those of another, from `from`.
fn same_characters(
    text: &Vec<char>,
    start: usize,
    other: &Vec<char>,
    from: usize,
    length: usize,
) -> (same: bool)
    requires
        start + length <= text@.len(),
        from + length <= other@.len(),
    ensures
        same == (text@.subrange(start as int, start + length) == other@.subrange(
            from as int,
            from + length,
        )),
{
    let ghost left = text@.subrange(start as int, start + length);
    let ghost right = other@.subrange(from as int, from + length);
    let mut i: usize = 0;
    while i < length
        invariant
            i <= length,
            start + length <= text@.len() == text.len(),
            from + length <= other@.len() == other.len(),
            left == text@.subrange(start as int, start + length),
            right == other@.subrange(from as int, from + length),
            forall|k: int| 0 <= k < i ==> #[trigger] left[k] == right[k],
        decreases length - i,
    {
        if text[start + i] != other[from + i] {
            assert(left[i as int] != right[i as int]);
            return false;
        }
        assert(left[i as int] == right[i as int]);
        i += 1;
    }
    assert(left =~= right);
    true
}

/// Decides whether every character is whitespace.
fn blank(text: &Vec<char>) -> (ok: bool)
    ensures
        ok == all_blank(text@),
{
    let mut i: usize = 0;
    while i < text.len()
        invariant
            i <= text@.len(),
            forall|k: int| 0 <= k < i ==> is_blank(#[trigger] text@[k]),
        decreases text.len() - i,
    {
        let c = text[i];
        if !(c == ' ' || c == '\t' || c == '\n' || c == '\r') {
            assert(!is_blank(text@[i as int]));
            return false;
        }
        i += 1;
    }
    true
}

/// Decides whether a match is the literal as it is written.
fn written_as(token_type: TokenType, value: &str, whole: &Vec<char>) -> (ok: bool)
    ensures
        ok == (spelled(TokenView { token_type, value: value@ }) == whole@),
{
    let literal = characters(value);
    let ghost spelling = spelled(TokenView { token_type, value: value@ });
    match token_type {
        TokenType::Variable => {
            let length: usize = whole.len();
            if literal.len() > usize::MAX - 2 || length != literal.len() + 2 {
                assert(spelling.len() == value@.len() + 2);
                return false;
            }
            let last: usize = length - 1;
            if whole[0] != '{' || whole[last] != '}' {
                assert(spelling[0] == '{' && spelling[last as int] == '}');
                return false;
            }
            let same = same_characters(whole, 1, &literal, 0, literal.len());
            proof {
                assert(literal@.subrange(0, literal@.len() as int) =~= literal@);
                if same {
                    assert(spelling =~= whole@) by {
                        assert forall|i: int| 0 <= i < whole@.len() implies spelling[i]
                            == whole@[i] by {
                            if 0 < i < last {
                                assert(whole@.subrange(1, 1 + literal@.len() as int)[i - 1] == whole@[i]);
                            }
                        }
                    }
                } else {
                    if spelling == whole@ {
                        assert(whole@.subrange(1, 1 + literal@.len() as int) =~= literal@);
                    }
                }
            }
            same
        },
        _ => {
            if whole.len() != literal.len() {
                return false;
            }
            let same = same_characters(whole, 0, &literal, 0, literal.len());
            proof {
                assert(literal@.subrange(0, literal@.len() as int) =~= literal@);
                assert(whole@.subrange(0, whole@.len() as int) =~= whole@);
            }
            same
        },
    }
}

/// Decides what the tokenizer makes of a match, given the text that is
/// left.
pub fn accept(token_type: TokenType, captured: Captured, rest: &str) -> (lexeme: Option<Lexeme>)
    ensures
        match lexeme {
            Some(lexeme) => accepted(token_type, captured@, rest@) == Some(lexeme@),
            None => accepted(token_type, captured@, rest@) is None,
        },
{
    let whole = characters(captured.whole.as_str());
    let left = characters(rest);
    let consumed: usize = whole.len();
    if consumed == 0 || consumed > left.len() {
        return None;
    }
    let leading = same_characters(&whole, 0, &left, 0, consumed);
    proof {
        assert(whole@.subrange(0, consumed as int) =~= whole@);
    }
    if !leading {
        return None;
    }
    if token_type == TokenType::Whitespace {
        if blank(&whole) {
            Some(Lexeme { consumed, token: None })
        } else {
            None
        }
    } else {
        match captured.group {
            Some(value) => {
                if literal(token_type, value.as_str()) && written_as(
                    token_type,
                    value.as_str(),
                    &whole,
                ) {
                    Some(Lexeme { consumed, token: Some(Token { token_type, value }) })
                } else {
                    None
                }
            },
            None => None,
        }
    }
}

/// One pattern, compiled, and the kind of token that it finds.
pub struct Matcher {
    regex: Regex,
    token_type: TokenType,
}

impl View for Matcher {
    type V = LexicalForm;

    closed spec fn view(&self) -> LexicalForm {
        LexicalForm { pattern: source(self.regex), token_type: self.token_type }
    }
}

impl Matcher {
    /// Compiles one of the tokenizer's patterns.
    fn new(pattern: &str, token_type: TokenType) -> (matcher: Self)
        requires
            is_lexical_pattern(pattern@),
        ensures
            matcher@ == (LexicalForm { pattern: pattern@, token_type }),
    {
        match compile(pattern) {
            Ok(regex) => Matcher { regex, token_type },
            Err(_) => vstd::pervasive::unreached(),
        }
    }

    /// Tries the pattern at the start of the text that is left.
    fn find(&self, rest: &str) -> (lexeme: Option<Lexeme>)
        ensures
            match lexeme {
                Some(lexeme) => form_match(self@, rest@) == Some(lexeme@),
                None => form_match(self@, rest@) is None,
            },
    {
        match capture(&self.regex, rest) {
            Some(captured) => accept(self.token_type, captured, rest),
            None => None,
        }
    }
}

/// Why a text has no tokens.
#[derive(Debug, PartialEq, Eq, Clone)]
pub enum TokenizerError {
    /// No form matches at the start of this text, which is what was left of
    /// the input.
    NoTokenMatched(String),
}

/// The tokenizer: the compiled forms, in the order in which they are tried.
pub struct Tokenizer {
    matchers: Vec<Matcher>,
}

impl View for Tokenizer {
    type V = Seq<LexicalForm>;

    closed spec fn view(&self) -> Seq<LexicalForm> {
        self.matchers@.map_values(|matcher: Matcher| matcher@)
    }
}

impl Tokenizer {
    /// Compiles the six lexical forms.
    pub fn new() -> (tokenizer: Self)
        ensures
            tokenizer@ == lexical_forms(),
    {
        let mut matchers: Vec<Matcher> = Vec::new();
        matchers.push(Matcher::new(WHITESPACE_REGEX, TokenType::Whitespace));
        matchers.push(Matcher::new(OPERATOR_REGEX, TokenType::Operator));
        matchers.push(Matcher::new(NUMBER_REGEX, TokenType::Number));
        matchers.push(Matcher::new(BOOLEAN_REGEX, TokenType::Boolean));
        matchers.push(Matcher::new(VARIABLE_REGEX, TokenType::Variable));
        matchers.push(Matcher::new(PARENTHESIS_REGEX, TokenType::Parenthesis));
        let tokenizer = Tokenizer { matchers };
        assert(tokenizer@ =~= lexical_forms());
        tokenizer
    }

    /// Finds the first form that matches at the start of the text that is
    /// left.
    fn scan(&self, rest: &str) -> (lexeme: Option<Lexeme>)
        ensures
            match lexeme {
                Some(lexeme) => first_match(self@, rest@) == Some(lexeme@),
                None => first_match(self@, rest@) is None,
            },
    {
        let mut i: usize = 0;
        assert(self@.skip(0) =~= self@);
        while i < self.matchers.len()
            invariant
                i <= self.matchers@.len(),
                first_match(self@, rest@) == first_match(self@.skip(i as int), rest@),
            decreases self.matchers.len() - i,
        {
            proof {
                assert(self@.skip(i as int).drop_first() =~= self@.skip(i + 1));
            }
            match self.matchers[i].find(rest) {
                Some(lexeme) => {
                    return Some(lexeme);
                },
                None => {},
            }
            i += 1;
        }
        None
    }

    /// Splits a text into its tokens, whitespace dropped. Where no form
    /// matches, the error holds the text that was left. The tokens are what
    /// the text holds: each is a literal of its kind, and nothing but
    /// whitespace stands between them.
    pub fn tokenize(&self, text: &str) -> (result: Result<TokenList, TokenizerError>)
        ensures
            match result {
                Ok(tokens) => lex(self@, text@) == Ok::<Seq<TokenView>, Seq<char>>(
                    tokens.deep_view(),
                ) && well_formed(tokens.deep_view()) && spells(text@, tokens.deep_view()),
                Err(TokenizerError::NoTokenMatched(rest)) => lex(self@, text@) == Err::<
                    Seq<TokenView>,
                    Seq<char>,
                >(rest@) && rest@.len() > 0 && rest@.is_suffix_of(text@),
            },
    {
        let mut tokens: TokenList = Vec::new();
        let mut rest: &str = text;
        let mut available: usize = rest.unicode_len();
        assert(tokens.deep_view() =~= Seq::empty());
        while available > 0
            invariant
                available == rest@.len(),
                lex(self@, text@) == lex_from(self@, rest@, tokens.deep_view()),
                well_formed(tokens.deep_view()),
            decreases available,
        {
            match self.scan(rest) {
                Some(lexeme) => {
                    let ghost before = tokens.deep_view();
                    proof {
                        lemma_first_match_fits(self@, rest@);
                    }
                    match lexeme.token {
                        Some(token) => {
                            tokens.push(token);
                            assert(tokens.deep_view() =~= before.push(token@));
                        },
                        None => {
                            assert(tokens.deep_view() =~= before);
                        },
                    }
                    rest = rest.substring_char(lexeme.consumed, available);
                    available = available - lexeme.consumed;
                },
                None => {
                    proof {
                        lemma_scan_stops_in_the_text(self@, text@, Seq::empty());
                    }
                    return Err(TokenizerError::NoTokenMatched(rest.to_owned()));
                },
            }
        }
        proof {
            lemma_tokens_spell_the_text(self@, text@);
        }
        Ok(tokens)
    }
}

} // verus!
