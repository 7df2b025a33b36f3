use vstd::prelude::*;
use vstd::string::*;

use crate::expression::{ExpressionNode, xor_node, implies_node, biconditional_node};
use crate::variable::Variable;
use crate::names::{
    NameTable,
    VariableNames,
    register,
    lookup_name,
    names_unique,
    var_set,
    lemma_register,
};

verus! {

/// The lower-case form of a string, as Rust's `str::to_lowercase` gives it
/// (the lower-case mapping of Unicode).
pub uninterp spec fn lowercase(s: Seq<char>) -> Seq<char>;

/// `c` with an ASCII capital letter replaced by its small letter; every
/// other character unchanged.
pub open spec fn ascii_lower_char(c: char) -> char {
    if 'A' <= c && c <= 'Z' {
        ((c as u32) + 32) as char
    } else {
        c
    }
}

/// `s` with every ASCII capital letter replaced by its small letter.
pub open spec fn ascii_lowercase(s: Seq<char>) -> Seq<char> {
    s.map_values(|c: char| ascii_lower_char(c))
}

/// Every character of `s` is an ASCII character.
pub open spec fn is_ascii_text(s: Seq<char>) -> bool {
    forall|i: int| 0 <= i < s.len() ==> (s[i] as u32) < 128
}

/// The name that a run of characters stands for: its lower-case form. For
/// an ASCII run that is the run with its capitals made small; otherwise it
/// is `lowercase` of the run with its ASCII capitals made small.
pub open spec fn name_form(run: Seq<char>) -> Seq<char> {
    if is_ascii_text(run) {
        ascii_lowercase(run)
    } else {
        lowercase(ascii_lowercase(run))
    }
}

/// Calls `str::to_lowercase` on the string made of `name`'s characters.
/// Claimed: the result's characters are `lowercase(name@)`, the value named
/// above, and, where every character of `name` is ASCII, they are `name`'s
/// characters with the capitals `A`..`Z` made small (Unicode's lower-case
/// mapping of ASCII). Nothing more is said of the mapping.
#[verifier::external_body]
fn lowercase_name(name: &Vec<char>) -> (res: String)
    ensures
        res@ == lowercase(name@),
        is_ascii_text(name@) ==> res@ == ascii_lowercase(name@),
{
    let s: String = name.iter().collect();
    s.to_lowercase()
}

/// A token of a formula, as the parser sees it.
pub enum TokenView {
    Or,
    And,
    Xor,
    Not,
    OpenParenthesis,
    CloseParenthesis,
    ImpliesRight,
    ImpliesLeft,
    Biconditional,
    Variable(Seq<char>),
}

/// A token of a formula.
#[derive(Debug)]
pub enum ExpressionParserToken {
    Or,
    And,
    Xor,
    Not,
    OpenParenthesis,
    CloseParenthesis,
    ImpliesRight,
    ImpliesLeft,
    Biconditional,
    Variable(String),
}

/// The associativity of a binary operator.
#[derive(PartialEq, Eq, Debug, Structural)]
pub enum Assoc {
    Left,
    Right,
}

/// The reason a formula was refused.
#[derive(Debug)]
pub enum ExpressionParseError {
    General,
}

impl View for ExpressionParserToken {
    type V = TokenView;

    open spec fn view(&self) -> TokenView {
        match self {
            ExpressionParserToken::Or => TokenView::Or,
            ExpressionParserToken::And => TokenView::And,
            ExpressionParserToken::Xor => TokenView::Xor,
            ExpressionParserToken::Not => TokenView::Not,
            ExpressionParserToken::OpenParenthesis => TokenView::OpenParenthesis,
            ExpressionParserToken::CloseParenthesis => TokenView::CloseParenthesis,
            ExpressionParserToken::ImpliesRight => TokenView::ImpliesRight,
            ExpressionParserToken::ImpliesLeft => TokenView::ImpliesLeft,
            ExpressionParserToken::Biconditional => TokenView::Biconditional,
            ExpressionParserToken::Variable(name) => TokenView::Variable(name@),
        }
    }
}

/// The views of a sequence of tokens.
pub open spec fn token_views(tokens: Seq<ExpressionParserToken>) -> Seq<TokenView> {
    tokens.map_values(|t: ExpressionParserToken| t@)
}

impl TokenView {
    pub open spec fn is_binary(self) -> bool {
        match self {
            TokenView::Or | TokenView::And | TokenView::Xor | TokenView::ImpliesRight
            | TokenView::ImpliesLeft | TokenView::Biconditional => true,
            _ => false,
        }
    }

    /// Binding strength of a binary operator: `<>` 1, `>` and `<` 2, `|` 3,
    /// `^` 4, `&` 5 (0 for other tokens).
    pub open spec fn precedence(self) -> int {
        match self {
            TokenView::Biconditional => 1,
            TokenView::ImpliesRight | TokenView::ImpliesLeft => 2,
            TokenView::Or => 3,
            TokenView::Xor => 4,
            TokenView::And => 5,
            _ => 0,
        }
    }

    /// `>` and `<` group to the right, the other binary operators to the left.
    pub open spec fn is_right_assoc(self) -> bool {
        match self {
            TokenView::ImpliesRight | TokenView::ImpliesLeft => true,
            _ => false,
        }
    }

    /// The least binding strength of an operator in the right operand.
    pub open spec fn next_min(self) -> int {
        if self.is_right_assoc() {
            self.precedence()
        } else {
            self.precedence() + 1
        }
    }
}

/// The formula that a binary operator makes of its operands.
pub open spec fn spec_combine(op: TokenView, left: ExpressionNode, right: ExpressionNode) -> ExpressionNode {
    match op {
        TokenView::And => ExpressionNode::And(Box::new(left), Box::new(right)),
        TokenView::Or => ExpressionNode::Or(Box::new(left), Box::new(right)),
        TokenView::Xor => xor_node(left, right),
        TokenView::ImpliesRight => implies_node(left, right),
        TokenView::ImpliesLeft => implies_node(right, left),
        TokenView::Biconditional => biconditional_node(left, right),
        _ => left,
    }
}

/// Characters that end a variable name: `<>^!|&()`.
pub open spec fn is_operator_char(c: char) -> bool {
    c == '<' || c == '>' || c == '^' || c == '!' || c == '|' || c == '&' || c == '(' || c == ')'
}

/// Characters that the parser skips: `_`, space and newline.
pub open spec fn is_ignored_char(c: char) -> bool {
    c == '_' || c == ' ' || c == '\n'
}

/// `s` without the characters that the parser skips.
pub open spec fn strip_ignored(s: Seq<char>) -> Seq<char>
    decreases s.len(),
{
    if s.len() == 0 {
        s
    } else if is_ignored_char(s.last()) {
        strip_ignored(s.drop_last())
    } else {
        strip_ignored(s.drop_last()).push(s.last())
    }
}

/// Length of the variable name at the start of `s`.
pub open spec fn name_len(s: Seq<char>) -> nat
    decreases s.len(),
{
    if s.len() == 0 || is_operator_char(s[0]) {
        0
    } else {
        1 + name_len(s.drop_first())
    }
}

pub proof fn lemma_name_len(s: Seq<char>)
    ensures
        name_len(s) <= s.len(),
        s.len() > 0 && !is_operator_char(s[0]) ==> name_len(s) >= 1,
    decreases s.len(),
{
    if s.len() > 0 && !is_operator_char(s[0]) {
        lemma_name_len(s.drop_first());
    }
}

/// The token of a one-character operator.
pub open spec fn operator_token(c: char) -> TokenView {
    if c == '>' {
        TokenView::ImpliesRight
    } else if c == '^' {
        TokenView::Xor
    } else if c == '!' {
        TokenView::Not
    } else if c == '|' {
        TokenView::Or
    } else if c == '&' {
        TokenView::And
    } else if c == '(' {
        TokenView::OpenParenthesis
    } else {
        TokenView::CloseParenthesis
    }
}

/// The tokens of `s`: `<>` is one token, every other operator character is
/// a token, and a maximal run of other characters is a variable, named by
/// its lower-case form (`name_form`).
pub open spec fn spec_tokenize(s: Seq<char>) -> Seq<TokenView>
    decreases s.len(),
{
    if s.len() == 0 {
        Seq::empty()
    } else if s[0] == '<' {
        if s.len() > 1 && s[1] == '>' {
            seq![TokenView::Biconditional] + spec_tokenize(s.skip(2))
        } else {
            seq![TokenView::ImpliesLeft] + spec_tokenize(s.skip(1))
        }
    } else if is_operator_char(s[0]) {
        seq![operator_token(s[0])] + spec_tokenize(s.skip(1))
    } else {
        proof {
            lemma_name_len(s);
        }
        let n = name_len(s) as int;
        seq![TokenView::Variable(name_form(s.take(n)))] + spec_tokenize(s.skip(n))
    }
}

/// What parsing gives: the formula, if one was read; the name table after
/// it; the position after the formula.
pub type ParseOutcome = (Option<ExpressionNode>, NameTable, int);

/// An operand at position `p` of `t`: a variable, a parenthesised formula,
/// or `!` followed by an operand.
pub open spec fn spec_prefix(t: Seq<TokenView>, p: int, e: NameTable) -> ParseOutcome
    decreases t.len() - p, 1int,
{
    if p < 0 || p >= t.len() {
        (None, e, p)
    } else {
        match t[p] {
            TokenView::Variable(name) => {
                let e2 = register(e, name);
                (Some(ExpressionNode::Variable(lookup_name(e2, name)->0)), e2, p + 1)
            },
            TokenView::OpenParenthesis => {
                let inner = spec_expr(t, p + 1, 0, e);
                match inner.0 {
                    Some(x) => if 0 <= inner.2 < t.len() && t[inner.2] is CloseParenthesis {
                        (Some(x), inner.1, inner.2 + 1)
                    } else {
                        (None, inner.1, inner.2)
                    },
                    None => (None, inner.1, inner.2),
                }
            },
            TokenView::Not => {
                let inner = spec_expr(t, p + 1, 6, e);
                match inner.0 {
                    Some(x) => (Some(ExpressionNode::Not(Box::new(x))), inner.1, inner.2),
                    None => (None, inner.1, inner.2),
                }
            },
            _ => (None, e, p + 1),
        }
    }
}

/// A formula at position `p` of `t` whose binary operators bind at least
/// with strength `min`: an operand followed by operators and operands.
pub open spec fn spec_expr(t: Seq<TokenView>, p: int, min: int, e: NameTable) -> ParseOutcome
    decreases t.len() - p, 2int,
{
    let first = spec_prefix(t, p, e);
    match first.0 {
        Some(left) => if p < first.2 <= t.len() {
            spec_loop(t, first.2, min, left, first.1)
        } else {
            (None, first.1, first.2)
        },
        None => first,
    }
}

/// The operators and operands that follow `left` at position `p`: while the
/// next token is a binary operator of strength at least `min`, its right
/// operand is read (with the strength that its associativity asks for)
/// and combined with `left`.
pub open spec fn spec_loop(t: Seq<TokenView>, p: int, min: int, left: ExpressionNode, e: NameTable) -> ParseOutcome
    decreases t.len() - p, 0int,
{
    if p < 0 || p >= t.len() || !t[p].is_binary() || t[p].precedence() < min {
        (Some(left), e, p)
    } else {
        let right = spec_expr(t, p + 1, t[p].next_min(), e);
        match right.0 {
            Some(r) => if p < right.2 <= t.len() {
                spec_loop(t, right.2, min, spec_combine(t[p], left, r), right.1)
            } else {
                (None, right.1, right.2)
            },
            None => (None, right.1, right.2),
        }
    }
}

/// The result of parsing a whole token sequence: the formula at its start;
/// tokens after it are left unread.
pub open spec fn spec_parse_tokens(t: Seq<TokenView>, e: NameTable) -> ParseOutcome {
    spec_expr(t, 0, 0, e)
}

/// The result of parsing a string.
pub open spec fn spec_parse_string(s: Seq<char>, e: NameTable) -> ParseOutcome {
    spec_parse_tokens(spec_tokenize(strip_ignored(s)), e)
}

impl Clone for ExpressionParserToken {
    fn clone(&self) -> (res: Self)
        ensures
            res@ == self@,
    {
        match self {
            ExpressionParserToken::Or => ExpressionParserToken::Or,
            ExpressionParserToken::And => ExpressionParserToken::And,
            ExpressionParserToken::Xor => ExpressionParserToken::Xor,
            ExpressionParserToken::Not => ExpressionParserToken::Not,
            ExpressionParserToken::OpenParenthesis => ExpressionParserToken::OpenParenthesis,
            ExpressionParserToken::CloseParenthesis => ExpressionParserToken::CloseParenthesis,
            ExpressionParserToken::ImpliesRight => ExpressionParserToken::ImpliesRight,
            ExpressionParserToken::ImpliesLeft => ExpressionParserToken::ImpliesLeft,
            ExpressionParserToken::Biconditional => ExpressionParserToken::Biconditional,
            ExpressionParserToken::Variable(name) => ExpressionParserToken::Variable(name.clone()),
        }
    }
}

impl PartialEq for ExpressionParserToken {
    fn eq(&self, other: &Self) -> (res: bool) {
        match self {
            ExpressionParserToken::Or => matches!(other, ExpressionParserToken::Or),
            ExpressionParserToken::And => matches!(other, ExpressionParserToken::And),
            ExpressionParserToken::Xor => matches!(other, ExpressionParserToken::Xor),
            ExpressionParserToken::Not => matches!(other, ExpressionParserToken::Not),
            ExpressionParserToken::OpenParenthesis => matches!(other, ExpressionParserToken::OpenParenthesis),
            ExpressionParserToken::CloseParenthesis => matches!(other, ExpressionParserToken::CloseParenthesis),
            ExpressionParserToken::ImpliesRight => matches!(other, ExpressionParserToken::ImpliesRight),
            ExpressionParserToken::ImpliesLeft => matches!(other, ExpressionParserToken::ImpliesLeft),
            ExpressionParserToken::Biconditional => matches!(other, ExpressionParserToken::Biconditional),
            ExpressionParserToken::Variable(name) => match other {
                ExpressionParserToken::Variable(other_name) => *name == *other_name,
                _ => false,
            },
        }
    }
}

impl vstd::std_specs::cmp::PartialEqSpecImpl for ExpressionParserToken {
    open spec fn obeys_eq_spec() -> bool {
        true
    }

    open spec fn eq_spec(&self, other: &Self) -> bool {
        self@ == other@
    }
}

/// `c` with an ASCII capital letter made small.
fn ascii_lower_char_exec(c: char) -> (res: char)
    ensures
        res == ascii_lower_char(c),
{
    if 'A' <= c && c <= 'Z' {
        ((c as u8) + 32) as char
    } else {
        c
    }
}

/// Making ASCII capitals small keeps small letters, ASCII and non-ASCII
/// characters, and the characters that the parser treats apart.
proof fn lemma_ascii_lower_char(c: char)
    ensures
        ascii_lower_char(ascii_lower_char(c)) == ascii_lower_char(c),
        ((ascii_lower_char(c) as u32) < 128) == ((c as u32) < 128),
        is_operator_char(ascii_lower_char(c)) == is_operator_char(c),
        is_ignored_char(ascii_lower_char(c)) == is_ignored_char(c),
        is_operator_char(c) ==> ascii_lower_char(c) == c,
        (ascii_lower_char(c) == '<') == (c == '<'),
        (ascii_lower_char(c) == '>') == (c == '>'),
{
    if 'A' <= c && c <= 'Z' {
        let d = ascii_lower_char(c);
        assert(d as u32 == c as u32 + 32);
        assert('a' <= d && d <= 'z');
    }
}

/// Making ASCII capitals small twice is making them small once, and keeps a
/// text ASCII exactly where it was.
proof fn lemma_ascii_lowercase(s: Seq<char>)
    ensures
        ascii_lowercase(ascii_lowercase(s)) == ascii_lowercase(s),
        is_ascii_text(ascii_lowercase(s)) == is_ascii_text(s),
{
    assert forall|i: int| 0 <= i < s.len() implies #[trigger] ascii_lowercase(ascii_lowercase(s))[i]
        == ascii_lowercase(s)[i] by {
        lemma_ascii_lower_char(s[i]);
    }
    assert(ascii_lowercase(ascii_lowercase(s)) =~= ascii_lowercase(s));
    if is_ascii_text(s) {
        assert forall|i: int| 0 <= i < s.len() implies (#[trigger] ascii_lowercase(s)[i] as u32) < 128 by {
            lemma_ascii_lower_char(s[i]);
        }
    }
    if is_ascii_text(ascii_lowercase(s)) {
        assert forall|i: int| 0 <= i < s.len() implies (#[trigger] s[i] as u32) < 128 by {
            lemma_ascii_lower_char(s[i]);
            assert((ascii_lowercase(s)[i] as u32) < 128);
        }
    }
}

fn is_operator_char_exec(c: char) -> (res: bool)
    ensures
        res == is_operator_char(c),
{
    c == '<' || c == '>' || c == '^' || c == '!' || c == '|' || c == '&' || c == '(' || c == ')'
}

fn operator_token_exec(c: char) -> (token: ExpressionParserToken)
    requires
        is_operator_char(c),
        c != '<',
    ensures
        token@ == operator_token(c),
{
    if c == '>' {
        ExpressionParserToken::ImpliesRight
    } else if c == '^' {
        ExpressionParserToken::Xor
    } else if c == '!' {
        ExpressionParserToken::Not
    } else if c == '|' {
        ExpressionParserToken::Or
    } else if c == '&' {
        ExpressionParserToken::And
    } else if c == '(' {
        ExpressionParserToken::OpenParenthesis
    } else {
        ExpressionParserToken::CloseParenthesis
    }
}

proof fn lemma_name_len_step(s: Seq<char>, i: int)
    requires
        0 <= i < s.len(),
        !is_operator_char(s[i]),
    ensures
        name_len(s.skip(i)) == 1 + name_len(s.skip(i + 1)),
{
    assert(s.skip(i).drop_first() =~= s.skip(i + 1));
}

impl ExpressionParserToken {
    pub fn is_binary_operator(&self) -> (res: bool)
        ensures
            res == self@.is_binary(),
    {
        match self {
            ExpressionParserToken::Or | ExpressionParserToken::And | ExpressionParserToken::Xor
            | ExpressionParserToken::ImpliesRight | ExpressionParserToken::ImpliesLeft
            | ExpressionParserToken::Biconditional => true,
            _ => false,
        }
    }

    /// The binding strength of a binary operator; an error for other tokens.
    pub fn precedence(&self) -> (res: Result<u8, ExpressionParseError>)
        ensures
            self@.is_binary() ==> res == Ok::<u8, ExpressionParseError>(self@.precedence() as u8),
            !self@.is_binary() ==> res is Err,
    {
        match self {
            ExpressionParserToken::Biconditional => Ok(1),
            ExpressionParserToken::ImpliesRight | ExpressionParserToken::ImpliesLeft => Ok(2),
            ExpressionParserToken::Or => Ok(3),
            ExpressionParserToken::Xor => Ok(4),
            ExpressionParserToken::And => Ok(5),
            _ => Err(ExpressionParseError::General),
        }
    }

    /// The associativity of a binary operator; an error for other tokens.
    pub fn associativity(&self) -> (res: Result<Assoc, ExpressionParseError>)
        ensures
            self@.is_binary() ==> res == Ok::<Assoc, ExpressionParseError>(
                if self@.is_right_assoc() { Assoc::Right } else { Assoc::Left },
            ),
            !self@.is_binary() ==> res is Err,
    {
        match self {
            ExpressionParserToken::ImpliesRight | ExpressionParserToken::ImpliesLeft => Ok(Assoc::Right),
            ExpressionParserToken::Biconditional => Ok(Assoc::Left),
            ExpressionParserToken::Or | ExpressionParserToken::Xor | ExpressionParserToken::And => Ok(
                Assoc::Left,
            ),
            _ => Err(ExpressionParseError::General),
        }
    }
}

/// A parser over the tokens of one formula.
/// Key characters are `<>^!|&()`; `_`, space and newline are skipped.
pub struct ExpressionParser {
    tokens: Vec<ExpressionParserToken>,
    current: usize,
}

impl ExpressionParser {
    /// The views of the parser's tokens.
    pub closed spec fn toks(&self) -> Seq<TokenView> {
        token_views(self.tokens@)
    }

    /// The position of the next token.
    pub closed spec fn pos(&self) -> int {
        self.current as int
    }

    pub closed spec fn wf(&self) -> bool {
        self.current <= self.tokens@.len()
    }

    /// Parses the formula at the start of `string`, entering its variable
    /// names into `variable_names`. Tokens after that formula are left
    /// unread. Where parsing fails, the names met before the failure stay
    /// entered.
    pub fn parse_string(string: &str, variable_names: &mut VariableNames) -> (res: Result<
        Box<ExpressionNode>,
        ExpressionParseError,
    >)
        requires
            old(variable_names).wf(),
        ensures
            final(variable_names).wf(),
            final(variable_names)@ == spec_parse_string(string@, old(variable_names)@).1,
            res is Ok <==> spec_parse_string(string@, old(variable_names)@).0 is Some,
            res matches Ok(node) ==> *node == spec_parse_string(string@, old(variable_names)@).0->0,
            res matches Ok(node) ==> node.vars_within(var_set(final(variable_names)@)),
            var_set(old(variable_names)@).subset_of(var_set(final(variable_names)@)),
    {
        let n = string.unicode_len();
        let mut filtered: Vec<char> = Vec::new();
        let mut i: usize = 0;
        while i < n
            invariant
                i <= n,
                n == string@.len(),
                filtered@ == strip_ignored(string@.take(i as int)),
            decreases n - i,
        {
            let c = string.get_char(i);
            assert(string@.take(i + 1).drop_last() =~= string@.take(i as int));
            if !(c == '_' || c == ' ' || c == '\n') {
                filtered.push(c);
            }
            i = i + 1;
        }
        assert(string@.take(n as int) =~= string@);
        let tokens = Self::tokenize(&filtered);
        Self::parse_tokens(tokens, variable_names)
    }

    /// Parses the formula at the start of `tokens`, entering its variable
    /// names into `variable_names`; tokens after it are left unread.
    pub fn parse_tokens(tokens: Vec<ExpressionParserToken>, variable_names: &mut VariableNames) -> (res:
        Result<Box<ExpressionNode>, ExpressionParseError>)
        requires
            old(variable_names).wf(),
        ensures
            final(variable_names).wf(),
            final(variable_names)@ == spec_parse_tokens(token_views(tokens@), old(variable_names)@).1,
            res is Ok <==> spec_parse_tokens(token_views(tokens@), old(variable_names)@).0 is Some,
            res matches Ok(node) ==> *node == spec_parse_tokens(
                token_views(tokens@),
                old(variable_names)@,
            ).0->0,
            res matches Ok(node) ==> node.vars_within(var_set(final(variable_names)@)),
            var_set(old(variable_names)@).subset_of(var_set(final(variable_names)@)),
    {
        let mut parser = ExpressionParser { tokens, current: 0 };
        let expr = parser.parse_expression(variable_names, 0)?;
        Ok(expr)
    }

    /// Splits `s` into tokens. A variable's name is lower-cased: ASCII
    /// capitals are made small here, and `str::to_lowercase` maps the rest.
    pub fn tokenize(s: &Vec<char>) -> (tokens: Vec<ExpressionParserToken>)
        ensures
            token_views(tokens@) == spec_tokenize(s@),
    {
        let mut tokens: Vec<ExpressionParserToken> = Vec::new();
        let mut i: usize = 0;
        assert(s@.skip(0) =~= s@);
        while i < s.len()
            invariant
                i <= s@.len(),
                token_views(tokens@) + spec_tokenize(s@.skip(i as int)) == spec_tokenize(s@),
            decreases s@.len() - i,
        {
            let ghost rest = s@.skip(i as int);
            let ghost before = token_views(tokens@);
            let c = s[i];
            assert(rest[0] == c);
            if c == '<' {
                if i + 1 < s.len() && s[i + 1] == '>' {
                    tokens.push(ExpressionParserToken::Biconditional);
                    assert(rest.skip(2) =~= s@.skip(i + 2));
                    assert(token_views(tokens@) =~= before.push(TokenView::Biconditional));
                    assert(token_views(tokens@) + spec_tokenize(s@.skip(i + 2)) =~= before + (seq![
                        TokenView::Biconditional] + spec_tokenize(rest.skip(2))));
                    i = i + 2;
                } else {
                    tokens.push(ExpressionParserToken::ImpliesLeft);
                    assert(rest.skip(1) =~= s@.skip(i + 1));
                    assert(token_views(tokens@) =~= before.push(TokenView::ImpliesLeft));
                    assert(token_views(tokens@) + spec_tokenize(s@.skip(i + 1)) =~= before + (seq![
                        TokenView::ImpliesLeft] + spec_tokenize(rest.skip(1))));
                    i = i + 1;
                }
            } else if is_operator_char_exec(c) {
                let token = operator_token_exec(c);
                tokens.push(token);
                assert(rest.skip(1) =~= s@.skip(i + 1));
                assert(token_views(tokens@) =~= before.push(operator_token(c)));
                assert(token_views(tokens@) + spec_tokenize(s@.skip(i + 1)) =~= before + (seq![
                    operator_token(c)] + spec_tokenize(rest.skip(1))));
                i = i + 1;
            } else {
                let start = i;
                let ghost name: Seq<char> = Seq::empty();
                let mut folded: Vec<char> = Vec::new();
                while i < s.len() && !is_operator_char_exec(s[i])
                    invariant
                        start <= i <= s@.len(),
                        name == s@.subrange(start as int, i as int),
                        folded@ == ascii_lowercase(name),
                        name_len(s@.skip(start as int)) == (i - start) + name_len(s@.skip(i as int)),
                    decreases s@.len() - i,
                {
                    proof {
                        lemma_name_len_step(s@, i as int);
                        name = name.push(s@[i as int]);
                    }
                    folded.push(ascii_lower_char_exec(s[i]));
                    assert(name =~= s@.subrange(start as int, i + 1));
                    assert(folded@ =~= ascii_lowercase(name));
                    i = i + 1;
                }
                assert(name_len(s@.skip(i as int)) == 0);
                assert(name_len(rest) == i - start);
                assert(rest.take(i - start) =~= name);
                assert(rest.skip(i - start) =~= s@.skip(i as int));
                let lowered = lowercase_name(&folded);
                proof {
                    lemma_ascii_lowercase(name);
                }
                assert(lowered@ == name_form(name));
                tokens.push(ExpressionParserToken::Variable(lowered));
                assert(token_views(tokens@) =~= before.push(TokenView::Variable(name_form(name))));
                assert(token_views(tokens@) + spec_tokenize(s@.skip(i as int)) =~= before + (seq![
                    TokenView::Variable(name_form(name))] + spec_tokenize(rest.skip(i - start))));
            }
        }
        assert(s@.skip(i as int) =~= Seq::<char>::empty());
        assert(token_views(tokens@) + Seq::<TokenView>::empty() =~= token_views(tokens@));
        tokens
    }

    /// Reads a formula whose binary operators bind at least with strength
    /// `min_precedence`.
    fn parse_expression(&mut self, variable_names: &mut VariableNames, min_precedence: u8) -> (res:
        Result<Box<ExpressionNode>, ExpressionParseError>)
        requires
            old(self).wf(),
            old(variable_names).wf(),
        ensures
            final(self).wf(),
            final(self).toks() == old(self).toks(),
            final(variable_names).wf(),
            final(variable_names)@ == spec_expr(
                old(self).toks(),
                old(self).pos(),
                min_precedence as int,
                old(variable_names)@,
            ).1,
            res is Ok <==> spec_expr(
                old(self).toks(),
                old(self).pos(),
                min_precedence as int,
                old(variable_names)@,
            ).0 is Some,
            res matches Ok(node) ==> {
                &&& *node == spec_expr(
                    old(self).toks(),
                    old(self).pos(),
                    min_precedence as int,
                    old(variable_names)@,
                ).0->0
                &&& final(self).pos() == spec_expr(
                    old(self).toks(),
                    old(self).pos(),
                    min_precedence as int,
                    old(variable_names)@,
                ).2
                &&& old(self).pos() < final(self).pos()
                &&& node.vars_within(var_set(final(variable_names)@))
            },
            var_set(old(variable_names)@).subset_of(var_set(final(variable_names)@)),
        decreases old(self).toks().len() - old(self).pos(), 2int,
    {
        let ghost t = self.toks();
        let ghost p0 = self.pos();
        let ghost e0 = variable_names@;
        let mut left = self.parse_prefix(variable_names)?;
        loop
            invariant
                self.wf(),
                self.toks() == t,
                t == old(self).toks(),
                p0 == old(self).pos(),
                e0 == old(variable_names)@,
                variable_names.wf(),
                p0 < self.pos(),
                spec_expr(t, p0, min_precedence as int, e0) == spec_loop(
                    t,
                    self.pos(),
                    min_precedence as int,
                    *left,
                    variable_names@,
                ),
                left.vars_within(var_set(variable_names@)),
                var_set(e0).subset_of(var_set(variable_names@)),
            ensures
                spec_loop(t, self.pos(), min_precedence as int, *left, variable_names@) == (
                    Some(*left),
                    variable_names@,
                    self.pos(),
                ),
            decreases t.len() - self.pos(),
        {
            let token = match self.peek_token() {
                Some(t) => t.clone(),
                None => break,
            };
            if !token.is_binary_operator() {
                break;
            }
            let precedence = token.precedence()?;
            if precedence < min_precedence {
                break;
            }
            let assoc = token.associativity()?;
            self.consume_token();
            let next_min = match assoc {
                Assoc::Left => precedence + 1,
                Assoc::Right => precedence,
            };
            let ghost names_before = variable_names@;
            let right = self.parse_expression(variable_names, next_min)?;
            proof {
                lemma_vars_within_grows(*left, var_set(names_before), var_set(variable_names@));
                lemma_combine_keeps_vars(token@, *left, *right, var_set(variable_names@));
            }
            left = self.combine_binary(&token, left, right)?;
        }
        Ok(left)
    }

    /// Reads an operand: a variable, a parenthesised formula, or `!`
    /// followed by an operand.
    fn parse_prefix(&mut self, variable_names: &mut VariableNames) -> (res: Result<
        Box<ExpressionNode>,
        ExpressionParseError,
    >)
        requires
            old(self).wf(),
            old(variable_names).wf(),
        ensures
            final(self).wf(),
            final(self).toks() == old(self).toks(),
            final(variable_names).wf(),
            final(variable_names)@ == spec_prefix(old(self).toks(), old(self).pos(), old(variable_names)@).1,
            res is Ok <==> spec_prefix(old(self).toks(), old(self).pos(), old(variable_names)@).0 is Some,
            res matches Ok(node) ==> {
                &&& *node == spec_prefix(old(self).toks(), old(self).pos(), old(variable_names)@).0->0
                &&& final(self).pos() == spec_prefix(
                    old(self).toks(),
                    old(self).pos(),
                    old(variable_names)@,
                ).2
                &&& old(self).pos() < final(self).pos()
                &&& node.vars_within(var_set(final(variable_names)@))
            },
            var_set(old(variable_names)@).subset_of(var_set(final(variable_names)@)),
        decreases old(self).toks().len() - old(self).pos(), 1int,
    {
        let token = match self.consume_token() {
            Some(token) => token,
            None => return Err(ExpressionParseError::General),
        };
        match token {
            ExpressionParserToken::Variable(name) => {
                proof {
                    lemma_register(variable_names@, name@);
                }
                let var = variable_names.get_or_insert(name);
                Ok(ExpressionNode::new_variable(var))
            },
            ExpressionParserToken::OpenParenthesis => {
                let expr = self.parse_expression(variable_names, 0);
                self.expect(ExpressionParserToken::CloseParenthesis)?;
                expr
            },
            ExpressionParserToken::Not => {
                let expr = self.parse_expression(variable_names, 6)?;
                Ok(ExpressionNode::new_not(expr))
            },
            _ => Err(ExpressionParseError::General),
        }
    }

    /// The formula that `token` makes of `left` and `right`; an error for a
    /// token that is no binary operator.
    fn combine_binary(
        &self,
        token: &ExpressionParserToken,
        left: Box<ExpressionNode>,
        right: Box<ExpressionNode>,
    ) -> (res: Result<Box<ExpressionNode>, ExpressionParseError>)
        ensures
            token@.is_binary() ==> (res matches Ok(node) && *node == spec_combine(token@, *left, *right)),
            !token@.is_binary() ==> res is Err,
    {
        match token {
            ExpressionParserToken::And => Ok(ExpressionNode::new_and(left, right)),
            ExpressionParserToken::Or => Ok(ExpressionNode::new_or(left, right)),
            ExpressionParserToken::Xor => Ok(ExpressionNode::new_xor(left, right)),
            ExpressionParserToken::ImpliesRight => Ok(ExpressionNode::new_implies(left, right)),
            ExpressionParserToken::ImpliesLeft => Ok(ExpressionNode::new_implies(right, left)),
            ExpressionParserToken::Biconditional => Ok(ExpressionNode::new_biconditional(left, right)),
            _ => Err(ExpressionParseError::General),
        }
    }

    fn peek_token(&self) -> (res: Option<&ExpressionParserToken>)
        requires
            self.wf(),
        ensures
            self.pos() < self.toks().len() ==> (res matches Some(token) && token@ == self.toks()[self.pos()]),
            self.pos() >= self.toks().len() ==> res is None,
    {
        if self.current < self.tokens.len() {
            Some(&self.tokens[self.current])
        } else {
            None
        }
    }

    fn consume_token(&mut self) -> (res: Option<ExpressionParserToken>)
        requires
            old(self).wf(),
        ensures
            final(self).wf(),
            final(self).toks() == old(self).toks(),
            old(self).pos() < old(self).toks().len() ==> {
                &&& res matches Some(token) && token@ == old(self).toks()[old(self).pos()]
                &&& final(self).pos() == old(self).pos() + 1
            },
            old(self).pos() >= old(self).toks().len() ==> res is None && final(self).pos() == old(
                self,
            ).pos(),
    {
        if self.current < self.tokens.len() {
            let token = self.tokens[self.current].clone();
            self.current = self.current + 1;
            Some(token)
        } else {
            None
        }
    }

    /// Consumes the next token; an error unless it is `expected`.
    fn expect(&mut self, expected: ExpressionParserToken) -> (res: Result<(), ExpressionParseError>)
        requires
            old(self).wf(),
        ensures
            final(self).wf(),
            final(self).toks() == old(self).toks(),
            res is Ok <==> (old(self).pos() < old(self).toks().len() && old(self).toks()[old(
                self,
            ).pos()] == expected@),
            res is Ok ==> final(self).pos() == old(self).pos() + 1,
    {
        if let Some(token) = self.consume_token() {
            if token != expected {
                return Err(ExpressionParseError::General);
            }
        } else {
            return Err(ExpressionParseError::General);
        }
        Ok(())
    }
}

/// Combining two formulas brings in no new variable.
pub proof fn lemma_combine_keeps_vars(
    op: TokenView,
    left: ExpressionNode,
    right: ExpressionNode,
    vars: Set<Variable>,
)
    requires
        left.vars_within(vars),
        right.vars_within(vars),
    ensures
        spec_combine(op, left, right).vars_within(vars),
{
    reveal_with_fuel(ExpressionNode::vars_within, 4);
}

/// A formula whose variables lie in a set has them in every larger set.
pub proof fn lemma_vars_within_grows(n: ExpressionNode, small: Set<Variable>, large: Set<Variable>)
    requires
        n.vars_within(small),
        small.subset_of(large),
    ensures
        n.vars_within(large),
    decreases n,
{
    match n {
        ExpressionNode::And(a, b) => {
            lemma_vars_within_grows(*a, small, large);
            lemma_vars_within_grows(*b, small, large);
        },
        ExpressionNode::Or(a, b) => {
            lemma_vars_within_grows(*a, small, large);
            lemma_vars_within_grows(*b, small, large);
        },
        ExpressionNode::Not(a) => {
            lemma_vars_within_grows(*a, small, large);
        },
        ExpressionNode::Variable(_) => {},
    }
}

/// `e2` keeps every entry of `e`, in place, and is free of repeated names
/// where `e` is.
pub open spec fn table_extends(e: NameTable, e2: NameTable) -> bool {
    &&& e.len() <= e2.len()
    &&& forall|i: int| 0 <= i < e.len() ==> #[trigger] e2[i] == e[i]
    &&& names_unique(e) ==> names_unique(e2)
}

proof fn lemma_register_extends(e: NameTable, name: Seq<char>)
    ensures
        table_extends(e, register(e, name)),
{
    if names_unique(e) {
        lemma_register(e, name);
    }
    if lookup_name(e, name) is None {
        assert(forall|i: int| 0 <= i < e.len() ==> #[trigger] register(e, name)[i] == e[i]);
    }
}

proof fn lemma_extends_trans(a: NameTable, b: NameTable, c: NameTable)
    requires
        table_extends(a, b),
        table_extends(b, c),
    ensures
        table_extends(a, c),
{
    assert forall|i: int| 0 <= i < a.len() implies #[trigger] c[i] == a[i] by {
        assert(c[i] == b[i]);
    }
}

proof fn lemma_prefix_extends(t: Seq<TokenView>, p: int, e: NameTable)
    ensures
        table_extends(e, spec_prefix(t, p, e).1),
    decreases t.len() - p, 1int,
{
    if 0 <= p < t.len() {
        match t[p] {
            TokenView::Variable(name) => {
                lemma_register_extends(e, name);
            },
            TokenView::OpenParenthesis => {
                lemma_expr_extends(t, p + 1, 0, e);
            },
            TokenView::Not => {
                lemma_expr_extends(t, p + 1, 6, e);
            },
            _ => {},
        }
    }
}

proof fn lemma_expr_extends(t: Seq<TokenView>, p: int, min: int, e: NameTable)
    ensures
        table_extends(e, spec_expr(t, p, min, e).1),
    decreases t.len() - p, 2int,
{
    let first = spec_prefix(t, p, e);
    lemma_prefix_extends(t, p, e);
    if first.0 is Some && p < first.2 <= t.len() {
        lemma_loop_extends(t, first.2, min, first.0->0, first.1);
        lemma_extends_trans(e, first.1, spec_expr(t, p, min, e).1);
    }
}

proof fn lemma_loop_extends(t: Seq<TokenView>, p: int, min: int, left: ExpressionNode, e: NameTable)
    ensures
        table_extends(e, spec_loop(t, p, min, left, e).1),
    decreases t.len() - p, 0int,
{
    if !(p < 0 || p >= t.len() || !t[p].is_binary() || t[p].precedence() < min) {
        let right = spec_expr(t, p + 1, t[p].next_min(), e);
        lemma_expr_extends(t, p + 1, t[p].next_min(), e);
        if right.0 is Some && p < right.2 <= t.len() {
            lemma_loop_extends(t, right.2, min, spec_combine(t[p], left, right.0->0), right.1);
            lemma_extends_trans(e, right.1, spec_loop(t, p, min, left, e).1);
        }
    }
}

/// Parsing never changes what a known name stands for, whether it
/// succeeds or fails; new names are added after the known ones.
pub proof fn law_parse_keeps_known_names(s: Seq<char>, e: NameTable, name: Seq<char>)
    requires
        names_unique(e),
        lookup_name(e, name) is Some,
    ensures
        lookup_name(spec_parse_string(s, e).1, name) == lookup_name(e, name),
        table_extends(e, spec_parse_string(s, e).1),
{
    let e2 = spec_parse_string(s, e).1;
    lemma_expr_extends(spec_tokenize(strip_ignored(s)), 0, 0, e);
    crate::names::lemma_find_name(e, name);
    crate::names::lemma_find_name(e2, name);
    let i = crate::names::find_name(e, name);
    assert(e2[i] == e[i]);
    let i2 = crate::names::find_name(e2, name);
    if i2 != i {
        assert(e2[i2].0 == e2[i].0);
        assert(false);
    }
}

/// The characters `_`, space and newline make no difference to parsing.
pub proof fn law_parse_ignores_skipped_characters(s1: Seq<char>, s2: Seq<char>, e: NameTable)
    requires
        strip_ignored(s1) == strip_ignored(s2),
    ensures
        spec_parse_string(s1, e) == spec_parse_string(s2, e),
{
}

/// Stripping removes exactly the skipped characters.
pub proof fn law_strip_ignored(s: Seq<char>)
    ensures
        forall|i: int| 0 <= i < strip_ignored(s).len() ==> !is_ignored_char(#[trigger] strip_ignored(s)[i]),
        strip_ignored(s + seq!['_']) == strip_ignored(s),
        strip_ignored(s + seq![' ']) == strip_ignored(s),
        strip_ignored(s + seq!['\n']) == strip_ignored(s),
    decreases s.len(),
{
    assert((s + seq!['_']).drop_last() =~= s);
    assert((s + seq![' ']).drop_last() =~= s);
    assert((s + seq!['\n']).drop_last() =~= s);
    if s.len() > 0 {
        law_strip_ignored(s.drop_last());
    }
}

/// The variable names among `t`, in order (with repeats).
pub open spec fn token_names(t: Seq<TokenView>) -> Seq<Seq<char>>
    decreases t.len(),
{
    if t.len() == 0 {
        Seq::empty()
    } else {
        token_names(t.drop_last()) + match t.last() {
            TokenView::Variable(name) => seq![name],
            _ => Seq::empty(),
        }
    }
}

/// The table after each of `names` is met in turn.
pub open spec fn register_all(e: NameTable, names: Seq<Seq<char>>) -> NameTable
    decreases names.len(),
{
    if names.len() == 0 {
        e
    } else {
        register(register_all(e, names.drop_last()), names.last())
    }
}

proof fn lemma_token_names_concat(a: Seq<TokenView>, b: Seq<TokenView>)
    ensures
        token_names(a + b) == token_names(a) + token_names(b),
    decreases b.len(),
{
    if b.len() == 0 {
        assert(a + b =~= a);
        assert(token_names(a) + token_names(b) =~= token_names(a));
    } else {
        lemma_token_names_concat(a, b.drop_last());
        assert((a + b).drop_last() =~= a + b.drop_last());
        let tail = match b.last() {
            TokenView::Variable(name) => seq![name],
            _ => Seq::<Seq<char>>::empty(),
        };
        assert(token_names(a) + token_names(b.drop_last()) + tail =~= token_names(a) + (token_names(
            b.drop_last(),
        ) + tail));
    }
}

proof fn lemma_register_all_concat(e: NameTable, x: Seq<Seq<char>>, y: Seq<Seq<char>>)
    ensures
        register_all(e, x + y) == register_all(register_all(e, x), y),
    decreases y.len(),
{
    if y.len() == 0 {
        assert(x + y =~= x);
    } else {
        lemma_register_all_concat(e, x, y.drop_last());
        assert((x + y).drop_last() =~= x + y.drop_last());
    }
}

/// The names met between positions `p` and `q`, entered in order.
proof fn lemma_names_between(t: Seq<TokenView>, p: int, m: int, q: int, e: NameTable)
    requires
        0 <= p <= m <= q <= t.len(),
    ensures
        register_all(e, token_names(t.subrange(p, q))) == register_all(
            register_all(e, token_names(t.subrange(p, m))),
            token_names(t.subrange(m, q)),
        ),
{
    assert(t.subrange(p, q) =~= t.subrange(p, m) + t.subrange(m, q));
    lemma_token_names_concat(t.subrange(p, m), t.subrange(m, q));
    lemma_register_all_concat(e, token_names(t.subrange(p, m)), token_names(t.subrange(m, q)));
}

/// A single token that is no variable brings no name.
proof fn lemma_names_of_operator(t: Seq<TokenView>, p: int, e: NameTable)
    requires
        0 <= p < t.len(),
        !(t[p] is Variable),
    ensures
        register_all(e, token_names(t.subrange(p, p + 1))) == e,
{
    let one = t.subrange(p, p + 1);
    assert(one.drop_last() =~= Seq::<TokenView>::empty());
    assert(token_names(one.drop_last()) == Seq::<Seq<char>>::empty());
    assert(one.last() == t[p]);
    assert(token_names(one) =~= Seq::<Seq<char>>::empty());
}

proof fn lemma_prefix_names(t: Seq<TokenView>, p: int, e: NameTable)
    requires
        0 <= p <= t.len(),
    ensures
        p <= spec_prefix(t, p, e).2 <= t.len(),
        spec_prefix(t, p, e).1 == register_all(e, token_names(t.subrange(p, spec_prefix(t, p, e).2))),
    decreases t.len() - p, 1int,
{
    let r = spec_prefix(t, p, e);
    if p == t.len() {
        assert(t.subrange(p, p) =~= Seq::<TokenView>::empty());
        assert(token_names(t.subrange(p, p)) == Seq::<Seq<char>>::empty());
    } else {
        match t[p] {
            TokenView::Variable(name) => {
                let one = t.subrange(p, p + 1);
                assert(one.drop_last() =~= Seq::<TokenView>::empty());
                assert(token_names(one.drop_last()) == Seq::<Seq<char>>::empty());
                assert(one.last() == t[p]);
                assert(token_names(one) =~= seq![name]);
                assert(seq![name].drop_last() =~= Seq::<Seq<char>>::empty());
                assert(register_all(e, seq![name].drop_last()) == e);
                assert(register_all(e, seq![name]) == register(e, name));
            },
            TokenView::OpenParenthesis => {
                lemma_expr_names(t, p + 1, 0, e);
                let inner = spec_expr(t, p + 1, 0, e);
                lemma_names_between(t, p, p + 1, inner.2, e);
                lemma_names_of_operator(t, p, e);
                if inner.0 is Some && 0 <= inner.2 < t.len() && t[inner.2] is CloseParenthesis {
                    lemma_names_between(t, p, inner.2, inner.2 + 1, e);
                    lemma_names_of_operator(t, inner.2, inner.1);
                }
            },
            TokenView::Not => {
                lemma_expr_names(t, p + 1, 6, e);
                let inner = spec_expr(t, p + 1, 6, e);
                lemma_names_between(t, p, p + 1, inner.2, e);
                lemma_names_of_operator(t, p, e);
            },
            _ => {
                lemma_names_of_operator(t, p, e);
            },
        }
    }
}

proof fn lemma_expr_names(t: Seq<TokenView>, p: int, min: int, e: NameTable)
    requires
        0 <= p <= t.len(),
    ensures
        p <= spec_expr(t, p, min, e).2 <= t.len(),
        spec_expr(t, p, min, e).1 == register_all(e, token_names(t.subrange(p, spec_expr(t, p, min, e).2))),
    decreases t.len() - p, 2int,
{
    let first = spec_prefix(t, p, e);
    lemma_prefix_names(t, p, e);
    if first.0 is Some && p < first.2 <= t.len() {
        lemma_loop_names(t, first.2, min, first.0->0, first.1);
        lemma_names_between(t, p, first.2, spec_expr(t, p, min, e).2, e);
    }
}

proof fn lemma_loop_names(t: Seq<TokenView>, p: int, min: int, left: ExpressionNode, e: NameTable)
    requires
        0 <= p <= t.len(),
    ensures
        p <= spec_loop(t, p, min, left, e).2 <= t.len(),
        spec_loop(t, p, min, left, e).1 == register_all(
            e,
            token_names(t.subrange(p, spec_loop(t, p, min, left, e).2)),
        ),
    decreases t.len() - p, 0int,
{
    if p < 0 || p >= t.len() || !t[p].is_binary() || t[p].precedence() < min {
        assert(t.subrange(p, p) =~= Seq::<TokenView>::empty());
        assert(token_names(t.subrange(p, p)) == Seq::<Seq<char>>::empty());
    } else {
        let right = spec_expr(t, p + 1, t[p].next_min(), e);
        lemma_expr_names(t, p + 1, t[p].next_min(), e);
        lemma_names_of_operator(t, p, e);
        lemma_names_between(t, p, p + 1, right.2, e);
        if right.0 is Some && p < right.2 <= t.len() {
            let combined = spec_combine(t[p], left, right.0->0);
            lemma_loop_names(t, right.2, min, combined, right.1);
            lemma_names_between(t, p, right.2, spec_loop(t, p, min, left, e).2, e);
        }
    }
}

/// Parsing enters the variable names in the order in which they occur in
/// the tokens it reads (up to the end of the formula, or to the token where
/// it fails): each new name gets the count of names before it as its
/// number (modulo 256).
pub proof fn law_parse_enters_names_in_order(s: Seq<char>, e: NameTable)
    ensures
        spec_parse_string(s, e).2 <= spec_tokenize(strip_ignored(s)).len(),
        spec_parse_string(s, e).1 == register_all(
            e,
            token_names(spec_tokenize(strip_ignored(s)).take(spec_parse_string(s, e).2)),
        ),
{
    let t = spec_tokenize(strip_ignored(s));
    lemma_expr_names(t, 0, 0, e);
    assert(t.subrange(0, spec_parse_string(s, e).2) =~= t.take(spec_parse_string(s, e).2));
}

/// The order of the binary operators: `&` binds tightest, then `^`, then
/// `|`, then `>` and `<` (equally), then `<>`; `>` and `<` group to the
/// right, `&`, `^`, `|` and `<>` to the left.
pub proof fn law_operator_strengths()
    ensures
        TokenView::And.precedence() > TokenView::Xor.precedence(),
        TokenView::Xor.precedence() > TokenView::Or.precedence(),
        TokenView::Or.precedence() > TokenView::ImpliesRight.precedence(),
        TokenView::ImpliesRight.precedence() == TokenView::ImpliesLeft.precedence(),
        TokenView::ImpliesLeft.precedence() > TokenView::Biconditional.precedence(),
        TokenView::Biconditional.precedence() > 0,
        TokenView::ImpliesRight.is_right_assoc(),
        TokenView::ImpliesLeft.is_right_assoc(),
        !TokenView::And.is_right_assoc(),
        !TokenView::Xor.is_right_assoc(),
        !TokenView::Or.is_right_assoc(),
        !TokenView::Biconditional.is_right_assoc(),
{
}

/// Whether `x op1 y op2 z` groups as `(x op1 y) op2 z`: `op1` binds
/// tighter than `op2`, or as tight and groups to the left.
pub open spec fn groups_left(op1: TokenView, op2: TokenView) -> bool {
    op1.precedence() > op2.precedence() || (op1.precedence() == op2.precedence()
        && !op1.is_right_assoc())
}

/// Parsing `x op1 y op2 z`, for variable names `x`, `y`, `z` and binary
/// operators `op1`, `op2`, reads all five tokens and groups by binding
/// strength: `(x op1 y) op2 z` where `op1` binds tighter than `op2` (or as
/// tight, grouping to the left), `x op1 (y op2 z)` otherwise.
pub proof fn law_parse_respects_precedence(
    x: Seq<char>,
    y: Seq<char>,
    z: Seq<char>,
    op1: TokenView,
    op2: TokenView,
    e: NameTable,
)
    requires
        op1.is_binary(),
        op2.is_binary(),
    ensures
        ({
            let t = seq![
                TokenView::Variable(x),
                op1,
                TokenView::Variable(y),
                op2,
                TokenView::Variable(z),
            ];
            let e1 = register(e, x);
            let e2 = register(e1, y);
            let e3 = register(e2, z);
            let vx = ExpressionNode::Variable(lookup_name(e1, x)->0);
            let vy = ExpressionNode::Variable(lookup_name(e2, y)->0);
            let vz = ExpressionNode::Variable(lookup_name(e3, z)->0);
            spec_parse_tokens(t, e) == (
                Some(
                    if groups_left(op1, op2) {
                        spec_combine(op2, spec_combine(op1, vx, vy), vz)
                    } else {
                        spec_combine(op1, vx, spec_combine(op2, vy, vz))
                    },
                ),
                e3,
                5int,
            )
        }),
{
    let t = seq![
        TokenView::Variable(x),
        op1,
        TokenView::Variable(y),
        op2,
        TokenView::Variable(z),
    ];
    let e1 = register(e, x);
    let e2 = register(e1, y);
    let e3 = register(e2, z);
    let vx = ExpressionNode::Variable(lookup_name(e1, x)->0);
    let vy = ExpressionNode::Variable(lookup_name(e2, y)->0);
    let vz = ExpressionNode::Variable(lookup_name(e3, z)->0);
    let nm1 = op1.next_min();
    let nm2 = op2.next_min();
    assert(t[0] == TokenView::Variable(x));
    assert(t[1] == op1);
    assert(t[2] == TokenView::Variable(y));
    assert(t[3] == op2);
    assert(t[4] == TokenView::Variable(z));
    assert(spec_prefix(t, 0, e) == (Some(vx), e1, 1int));
    assert(spec_prefix(t, 2, e1) == (Some(vy), e2, 3int));
    assert(spec_prefix(t, 4, e2) == (Some(vz), e3, 5int));
    assert(spec_loop(t, 5, nm2, vz, e3) == (Some(vz), e3, 5int));
    assert(spec_expr(t, 4, nm2, e2) == (Some(vz), e3, 5int));
    if groups_left(op1, op2) {
        let l1 = spec_combine(op1, vx, vy);
        let l2 = spec_combine(op2, l1, vz);
        assert(spec_loop(t, 3, nm1, vy, e2) == (Some(vy), e2, 3int));
        assert(spec_expr(t, 2, nm1, e1) == (Some(vy), e2, 3int));
        assert(spec_loop(t, 5, 0, l2, e3) == (Some(l2), e3, 5int));
        assert(spec_loop(t, 3, 0, l1, e2) == (Some(l2), e3, 5int));
        assert(spec_loop(t, 1, 0, vx, e1) == (Some(l2), e3, 5int));
    } else {
        let r = spec_combine(op2, vy, vz);
        let l = spec_combine(op1, vx, r);
        assert(spec_loop(t, 5, nm1, r, e3) == (Some(r), e3, 5int));
        assert(spec_loop(t, 3, nm1, vy, e2) == (Some(r), e3, 5int));
        assert(spec_expr(t, 2, nm1, e1) == (Some(r), e3, 5int));
        assert(spec_loop(t, 5, 0, l, e3) == (Some(l), e3, 5int));
        assert(spec_loop(t, 1, 0, vx, e1) == (Some(l), e3, 5int));
    }
}

/// Whether `post` can follow a formula without extending it: it is empty
/// or starts with a token that is no binary operator.
pub open spec fn ends_formula(post: Seq<TokenView>) -> bool {
    post.len() == 0 || !post[0].is_binary()
}

/// An operand read from `t` is read alike, and with the same names, from
/// `t` between other tokens, where what follows `t` cannot extend it.
proof fn lemma_prefix_shift(
    pre: Seq<TokenView>,
    t: Seq<TokenView>,
    post: Seq<TokenView>,
    p: int,
    e: NameTable,
)
    requires
        0 <= p,
        spec_prefix(t, p, e).0 is Some,
        ends_formula(post),
    ensures
        ({
            let r = spec_prefix(t, p, e);
            spec_prefix(pre + t + post, p + pre.len(), e) == (r.0, r.1, r.2 + pre.len())
        }),
    decreases t.len() - p, 1int,
{
    let big = pre + t + post;
    let k = pre.len() as int;
    assert(big[p + k] == t[p]);
    match t[p] {
        TokenView::OpenParenthesis => {
            let inner = spec_expr(t, p + 1, 0, e);
            lemma_expr_shift(pre, t, post, p + 1, 0, e);
            if 0 <= inner.2 < t.len() {
                assert(big[inner.2 + k] == t[inner.2]);
            }
        },
        TokenView::Not => {
            lemma_expr_shift(pre, t, post, p + 1, 6, e);
        },
        _ => {},
    }
}

/// A formula read from `t` is read alike, and with the same names, from
/// `t` between other tokens, where what follows `t` cannot extend it.
proof fn lemma_expr_shift(
    pre: Seq<TokenView>,
    t: Seq<TokenView>,
    post: Seq<TokenView>,
    p: int,
    min: int,
    e: NameTable,
)
    requires
        0 <= p,
        spec_expr(t, p, min, e).0 is Some,
        ends_formula(post),
    ensures
        ({
            let r = spec_expr(t, p, min, e);
            spec_expr(pre + t + post, p + pre.len(), min, e) == (r.0, r.1, r.2 + pre.len())
        }),
    decreases t.len() - p, 2int,
{
    let first = spec_prefix(t, p, e);
    lemma_prefix_shift(pre, t, post, p, e);
    lemma_loop_shift(pre, t, post, first.2, min, first.0->0, first.1);
}

/// The operators and operands read after `left` from `t` are read alike
/// from `t` between other tokens, where what follows `t` cannot extend
/// the formula.
proof fn lemma_loop_shift(
    pre: Seq<TokenView>,
    t: Seq<TokenView>,
    post: Seq<TokenView>,
    p: int,
    min: int,
    left: ExpressionNode,
    e: NameTable,
)
    requires
        0 <= p <= t.len(),
        spec_loop(t, p, min, left, e).0 is Some,
        ends_formula(post),
    ensures
        ({
            let r = spec_loop(t, p, min, left, e);
            spec_loop(pre + t + post, p + pre.len(), min, left, e) == (r.0, r.1, r.2 + pre.len())
        }),
    decreases t.len() - p, 0int,
{
    let big = pre + t + post;
    let k = pre.len() as int;
    if p == t.len() {
        if post.len() > 0 {
            assert(big[p + k] == post[0]);
        }
    } else {
        assert(big[p + k] == t[p]);
        if t[p].is_binary() && t[p].precedence() >= min {
            let right = spec_expr(t, p + 1, t[p].next_min(), e);
            lemma_expr_shift(pre, t, post, p + 1, t[p].next_min(), e);
            lemma_loop_shift(pre, t, post, right.2, min, spec_combine(t[p], left, right.0->0), right.1);
        }
    }
}

/// A formula in parentheses parses as the formula inside them: where
/// parsing `t` reads all of it to a formula, parsing `( t )` reads all of
/// it to the same formula, with the same names entered.
pub proof fn law_parenthesised_formula(t: Seq<TokenView>, e: NameTable)
    requires
        spec_parse_tokens(t, e).0 is Some,
        spec_parse_tokens(t, e).2 == t.len(),
    ensures
        spec_parse_tokens(
            seq![TokenView::OpenParenthesis] + t + seq![TokenView::CloseParenthesis],
            e,
        ) == (spec_parse_tokens(t, e).0, spec_parse_tokens(t, e).1, t.len() + 2int),
{
    let pre = seq![TokenView::OpenParenthesis];
    let post = seq![TokenView::CloseParenthesis];
    let big = pre + t + post;
    let r = spec_parse_tokens(t, e);
    lemma_expr_shift(pre, t, post, 0, 0, e);
    assert(spec_expr(big, 1, 0, e) == (r.0, r.1, t.len() + 1int));
    assert(big[0] == TokenView::OpenParenthesis);
    assert(big[t.len() + 1int] == TokenView::CloseParenthesis);
    assert(spec_prefix(big, 0, e) == (r.0, r.1, t.len() + 2int));
    assert(spec_loop(big, t.len() + 2int, 0, r.0->0, r.1) == (r.0, r.1, t.len() + 2int));
}

/// Skipping characters and making ASCII capitals small can be done in
/// either order.
proof fn lemma_strip_ascii_lowercase(s: Seq<char>)
    ensures
        strip_ignored(ascii_lowercase(s)) == ascii_lowercase(strip_ignored(s)),
    decreases s.len(),
{
    if s.len() > 0 {
        lemma_strip_ascii_lowercase(s.drop_last());
        lemma_ascii_lower_char(s.last());
        assert(ascii_lowercase(s).drop_last() =~= ascii_lowercase(s.drop_last()));
        assert(ascii_lowercase(s).last() == ascii_lower_char(s.last()));
        assert(ascii_lowercase(strip_ignored(s.drop_last()).push(s.last())) =~= ascii_lowercase(
            strip_ignored(s.drop_last()),
        ).push(ascii_lower_char(s.last())));
    }
}

/// Making ASCII capitals small keeps the length of a leading name.
proof fn lemma_name_len_ascii_lowercase(s: Seq<char>)
    ensures
        name_len(ascii_lowercase(s)) == name_len(s),
    decreases s.len(),
{
    if s.len() > 0 {
        lemma_ascii_lower_char(s[0]);
        assert(ascii_lowercase(s)[0] == ascii_lower_char(s[0]));
        assert(ascii_lowercase(s).drop_first() =~= ascii_lowercase(s.drop_first()));
        lemma_name_len_ascii_lowercase(s.drop_first());
    }
}

/// A run and its form with ASCII capitals made small have the same name.
proof fn lemma_name_form_ascii_lowercase(run: Seq<char>)
    ensures
        name_form(ascii_lowercase(run)) == name_form(run),
{
    lemma_ascii_lowercase(run);
}

/// Tokenizing gives the same tokens once ASCII capitals are made small.
proof fn lemma_tokenize_ascii_lowercase(s: Seq<char>)
    ensures
        spec_tokenize(ascii_lowercase(s)) == spec_tokenize(s),
    decreases s.len(),
{
    let v = ascii_lowercase(s);
    if s.len() > 0 {
        lemma_ascii_lower_char(s[0]);
        assert(v[0] == ascii_lower_char(s[0]));
        if s.len() > 1 {
            lemma_ascii_lower_char(s[1]);
            assert(v[1] == ascii_lower_char(s[1]));
        }
        if s[0] == '<' {
            if s.len() > 1 && s[1] == '>' {
                assert(v.skip(2) =~= ascii_lowercase(s.skip(2)));
                lemma_tokenize_ascii_lowercase(s.skip(2));
            } else {
                assert(v.skip(1) =~= ascii_lowercase(s.skip(1)));
                lemma_tokenize_ascii_lowercase(s.skip(1));
            }
        } else if is_operator_char(s[0]) {
            assert(v.skip(1) =~= ascii_lowercase(s.skip(1)));
            lemma_tokenize_ascii_lowercase(s.skip(1));
        } else {
            lemma_name_len(s);
            lemma_name_len_ascii_lowercase(s);
            let n = name_len(s) as int;
            assert(v.skip(n) =~= ascii_lowercase(s.skip(n)));
            assert(v.take(n) =~= ascii_lowercase(s.take(n)));
            lemma_tokenize_ascii_lowercase(s.skip(n));
            lemma_name_form_ascii_lowercase(s.take(n));
        }
    }
}

/// Variable names do not depend on the case of ASCII letters: two strings
/// that are equal once their capitals `A`..`Z` are made small parse alike,
/// to the same formula, with the same names entered.
pub proof fn law_parse_ignores_ascii_case(s1: Seq<char>, s2: Seq<char>, e: NameTable)
    requires
        ascii_lowercase(s1) == ascii_lowercase(s2),
    ensures
        spec_parse_string(s1, e) == spec_parse_string(s2, e),
{
    lemma_strip_ascii_lowercase(s1);
    lemma_strip_ascii_lowercase(s2);
    lemma_tokenize_ascii_lowercase(strip_ignored(s1));
    lemma_tokenize_ascii_lowercase(strip_ignored(s2));
}

/// The name of a run of ASCII characters has no capital letter, is as long
/// as the run, and is the run itself where the run has no capital.
pub proof fn law_ascii_names_are_small(run: Seq<char>)
    requires
        is_ascii_text(run),
    ensures
        name_form(run).len() == run.len(),
        forall|i: int| 0 <= i < run.len() ==> !('A' <= #[trigger] name_form(run)[i] && name_form(run)[i] <= 'Z'),
        (forall|i: int| 0 <= i < run.len() ==> !('A' <= #[trigger] run[i] && run[i] <= 'Z')) ==> name_form(run) == run,
{
    assert forall|i: int| 0 <= i < run.len() implies !('A' <= #[trigger] name_form(run)[i]
        && name_form(run)[i] <= 'Z') by {
        lemma_ascii_lower_char(run[i]);
        assert(name_form(run)[i] == ascii_lower_char(run[i]));
        assert(ascii_lower_char(ascii_lower_char(run[i])) == ascii_lower_char(run[i]));
    }
    if forall|i: int| 0 <= i < run.len() ==> !('A' <= #[trigger] run[i] && run[i] <= 'Z') {
        assert(name_form(run) =~= run);
    }
}

/// `!` binds tighter than every binary operator: parsing `! x op y`, for
/// variable names `x`, `y` and a binary operator `op`, reads all four
/// tokens to `(!x) op y`.
pub proof fn law_negation_binds_tightest(x: Seq<char>, y: Seq<char>, op: TokenView, e: NameTable)
    requires
        op.is_binary(),
    ensures
        ({
            let t = seq![TokenView::Not, TokenView::Variable(x), op, TokenView::Variable(y)];
            let e1 = register(e, x);
            let e2 = register(e1, y);
            let vx = ExpressionNode::Variable(lookup_name(e1, x)->0);
            let vy = ExpressionNode::Variable(lookup_name(e2, y)->0);
            spec_parse_tokens(t, e) == (
                Some(spec_combine(op, ExpressionNode::Not(Box::new(vx)), vy)),
                e2,
                4int,
            )
        }),
{
    let t = seq![TokenView::Not, TokenView::Variable(x), op, TokenView::Variable(y)];
    let e1 = register(e, x);
    let e2 = register(e1, y);
    let vx = ExpressionNode::Variable(lookup_name(e1, x)->0);
    let vy = ExpressionNode::Variable(lookup_name(e2, y)->0);
    let nx = ExpressionNode::Not(Box::new(vx));
    let l = spec_combine(op, nx, vy);
    assert(t[0] == TokenView::Not);
    assert(t[1] == TokenView::Variable(x));
    assert(t[2] == op);
    assert(t[3] == TokenView::Variable(y));
    assert(spec_prefix(t, 1, e) == (Some(vx), e1, 2int));
    assert(spec_loop(t, 2, 6, vx, e1) == (Some(vx), e1, 2int));
    assert(spec_expr(t, 1, 6, e) == (Some(vx), e1, 2int));
    assert(spec_prefix(t, 0, e) == (Some(nx), e1, 2int));
    assert(spec_prefix(t, 3, e1) == (Some(vy), e2, 4int));
    assert(spec_loop(t, 4, op.next_min(), vy, e2) == (Some(vy), e2, 4int));
    assert(spec_expr(t, 3, op.next_min(), e1) == (Some(vy), e2, 4int));
    assert(spec_loop(t, 4, 0, l, e2) == (Some(l), e2, 4int));
    assert(spec_loop(t, 2, 0, nx, e1) == (Some(l), e2, 4int));
}

/// What each binary operator means: `&` both, `|` at least one, `^` exactly
/// one, `a > b` that `a` implies `b`, `a < b` that `b` implies `a`, `<>`
/// both or neither.
pub proof fn law_operator_meaning(
    op: TokenView,
    l: ExpressionNode,
    r: ExpressionNode,
    env: spec_fn(Variable) -> bool,
)
    requires
        op.is_binary(),
    ensures
        spec_combine(op, l, r).eval(env) == match op {
            TokenView::And => l.eval(env) && r.eval(env),
            TokenView::Or => l.eval(env) || r.eval(env),
            TokenView::Xor => l.eval(env) != r.eval(env),
            TokenView::ImpliesRight => !l.eval(env) || r.eval(env),
            TokenView::ImpliesLeft => l.eval(env) || !r.eval(env),
            _ => l.eval(env) == r.eval(env),
        },
{
    reveal_with_fuel(ExpressionNode::eval, 4);
}

} // verus!
