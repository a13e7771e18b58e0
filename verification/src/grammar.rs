//! The grammar engine: a single-pass recursive-descent parser driven by
//! one-character lookahead.
//!
//! The grammar itself is written down as a family of spec functions
//! (`spec_parse` and its helpers); the executable parser is proved to return
//! exactly what those functions describe, for every input.

use vstd::prelude::*;
use vstd::string::StrSliceExecFns;
use crate::cursor::{byte_pos, lemma_byte_pos_mono, Cursor};
use crate::node::{lemma_models_index, lemma_models_push, models, SpecNode, SyntaxNode,
    SyntaxNodeType};

verus! {

/// The Unicode `White_Space` property, written out.
pub open spec fn is_ws_char(c: char) -> bool {
    let u = c as u32;
    (0x09 <= u && u <= 0x0D) || u == 0x20 || u == 0x85 || u == 0xA0 || u == 0x1680 || (0x2000 <= u
        && u <= 0x200A) || u == 0x2028 || u == 0x2029 || u == 0x202F || u == 0x205F || u == 0x3000
}

/// Characters that end a word or variable token: whitespace and the three
/// structural delimiters.
pub open spec fn is_stop_char(c: char) -> bool {
    is_ws_char(c) || c == '(' || c == ')' || c == ';'
}

/// Number of consecutive whitespace characters starting at index `i`.
pub open spec fn ws_run(s: Seq<char>, i: int) -> nat
    decreases s.len() - i,
{
    if 0 <= i < s.len() && is_ws_char(s[i]) {
        1 + ws_run(s, i + 1)
    } else {
        0
    }
}

/// Number of consecutive non-stop characters starting at index `i`.
pub open spec fn word_run(s: Seq<char>, i: int) -> nat
    decreases s.len() - i,
{
    if 0 <= i < s.len() && !is_stop_char(s[i]) {
        1 + word_run(s, i + 1)
    } else {
        0
    }
}

/// Number of characters a comment consumes after its `;`: everything before
/// the next newline, or to the end of input.
pub open spec fn comment_run(s: Seq<char>, i: int) -> nat
    decreases s.len() - i,
{
    if 0 <= i < s.len() && s[i] != '\n' {
        1 + comment_run(s, i + 1)
    } else {
        0
    }
}

/// Number of characters a string literal consumes after its opening quote:
/// everything up to and including the closing quote, or to the end of input
/// if no closing quote appears.
pub open spec fn string_run(s: Seq<char>, i: int) -> nat
    decreases s.len() - i,
{
    if 0 <= i < s.len() {
        if s[i] == '"' {
            1
        } else {
            1 + string_run(s, i + 1)
        }
    } else {
        0
    }
}

/// A scan started inside the input never runs past its end.
pub proof fn lemma_ws_run_bound(s: Seq<char>, i: int)
    requires
        0 <= i <= s.len(),
    ensures
        i + ws_run(s, i) <= s.len(),
    decreases s.len() - i,
{
    if i < s.len() && is_ws_char(s[i]) {
        lemma_ws_run_bound(s, i + 1);
    }
}

/// A scan started inside the input never runs past its end.
pub proof fn lemma_word_run_bound(s: Seq<char>, i: int)
    requires
        0 <= i <= s.len(),
    ensures
        i + word_run(s, i) <= s.len(),
    decreases s.len() - i,
{
    if i < s.len() && !is_stop_char(s[i]) {
        lemma_word_run_bound(s, i + 1);
    }
}

/// A scan started inside the input never runs past its end.
pub proof fn lemma_comment_run_bound(s: Seq<char>, i: int)
    requires
        0 <= i <= s.len(),
    ensures
        i + comment_run(s, i) <= s.len(),
    decreases s.len() - i,
{
    if i < s.len() && s[i] != '\n' {
        lemma_comment_run_bound(s, i + 1);
    }
}

/// A scan started inside the input never runs past its end.
pub proof fn lemma_string_run_bound(s: Seq<char>, i: int)
    requires
        0 <= i <= s.len(),
    ensures
        i + string_run(s, i) <= s.len(),
    decreases s.len() - i,
{
    if i < s.len() && s[i] != '"' {
        lemma_string_run_bound(s, i + 1);
    }
}

/// The conditions under which a parse fails.  All are fatal to the whole
/// call: no partial tree is returned.  Decoding failures cannot arise here,
/// because the source is handed over as a string, already decoded.
#[derive(Clone, Copy, Debug, PartialEq, Eq, Structural)]
pub enum ParseError {
    /// A bare `)` stood at the start of a top-level construct.
    UnexpectedCloseParen,
    /// The next non-whitespace character after a `!` marker was not `(`.
    MissingExpressionAfterBang,
    /// The input was exhausted before an open group found its `)`.
    UnclosedExpression,
    /// The input was exhausted while parsing a nested construct.
    UnexpectedEndOfInput,
}

impl ParseError {
    /// A descriptive message for the condition, as a caller would report it.
    pub fn message(&self) -> (m: &'static str)
        ensures
            *self == ParseError::UnexpectedCloseParen ==> m@ == "Unexpected ')' at top level"@,
            *self == ParseError::MissingExpressionAfterBang ==> m@
                == "Expected an expression after '!'"@,
            *self == ParseError::UnclosedExpression ==> m@ == "Unclosed expression"@,
            *self == ParseError::UnexpectedEndOfInput ==> m@
                == "Unexpected end of input inside expression"@,
    {
        match self {
            ParseError::UnexpectedCloseParen => "Unexpected ')' at top level",
            ParseError::MissingExpressionAfterBang => "Expected an expression after '!'",
            ParseError::UnclosedExpression => "Unclosed expression",
            ParseError::UnexpectedEndOfInput => "Unexpected end of input inside expression",
        }
    }
}

/// A leaf node that carries no text.
pub open spec fn spec_leaf(kind: SyntaxNodeType, start: nat, end: nat) -> SpecNode {
    SpecNode {
        kind,
        children: Seq::empty(),
        text: None,
        message: None,
        complete: true,
        start,
        end,
    }
}

/// A leaf token node carrying its parsed text.
pub open spec fn spec_token(kind: SyntaxNodeType, start: nat, end: nat, text: Seq<char>) -> SpecNode {
    SpecNode {
        kind,
        children: Seq::empty(),
        text: Some(text),
        message: None,
        complete: true,
        start,
        end,
    }
}

/// A composite expression-group node.
pub open spec fn spec_group(start: nat, end: nat, children: Seq<SpecNode>) -> SpecNode {
    SpecNode {
        kind: SyntaxNodeType::ExpressionGroup,
        children,
        text: None,
        message: None,
        complete: true,
        start,
        end,
    }
}

/// A comment starting at the `;` at index `i`: its range runs through the
/// characters before the next newline; it carries no text.
pub open spec fn spec_comment(s: Seq<char>, i: int) -> (SpecNode, int) {
    let j = i + 1 + comment_run(s, i + 1);
    (spec_leaf(SyntaxNodeType::Comment, byte_pos(s, i), byte_pos(s, j)), j)
}

/// A variable token starting at the `$` at index `i`: the text is the run up
/// to the next stop character, excluding the `$`; the range includes it.
pub open spec fn spec_variable(s: Seq<char>, i: int) -> (SpecNode, int) {
    let j = i + 1 + word_run(s, i + 1);
    (
        spec_token(SyntaxNodeType::VariableToken, byte_pos(s, i), byte_pos(s, j), s.subrange(i + 1, j)),
        j,
    )
}

/// A word token starting at index `i`: the run up to the next stop character.
pub open spec fn spec_word(s: Seq<char>, i: int) -> (SpecNode, int) {
    let j = i + word_run(s, i);
    (spec_token(SyntaxNodeType::WordToken, byte_pos(s, i), byte_pos(s, j), s.subrange(i, j)), j)
}

/// A string token starting at the `"` at index `i`: the range runs through
/// the closing quote (or to the end of input if none appears, accepted
/// silently); the text is the interior, with no escape processing.
pub open spec fn spec_string(s: Seq<char>, i: int) -> (SpecNode, int) {
    let r = string_run(s, i + 1);
    let j = i + 1 + r;
    let closed = r >= 1 && s[j - 1] == '"';
    let text = if closed {
        s.subrange(i + 1, j - 1)
    } else {
        s.subrange(i + 1, j)
    };
    (spec_token(SyntaxNodeType::StringToken, byte_pos(s, i), byte_pos(s, j), text), j)
}

/// The `!` that opens an exec-expression, parsed as a one-character word
/// token: the bang character is its own word.
pub open spec fn spec_bang(s: Seq<char>, i: int) -> SpecNode {
    spec_token(SyntaxNodeType::WordToken, byte_pos(s, i), byte_pos(s, i + 1), s.subrange(i, i + 1))
}

/// One top-level construct from character index `i` on, after dropping
/// leading whitespace and top-level comments: the node and the index just
/// past it, `None` once the input is exhausted, or the first error.
/// Dispatch is on the first meaningful character: `!` opens an
/// exec-expression, `$` a variable, `(` an expression group, `"` a string, a
/// bare `)` is an error, and anything else starts a word.  A comment here is
/// consumed as skipped top-level content, never returned as a root; only
/// inside a group is a comment retained (see `spec_expr_items`).
pub open spec fn spec_parse_node(s: Seq<char>, i: int) -> Result<
    Option<(SpecNode, int)>,
    ParseError,
>
    decreases s.len() - i, 2int,
{
    if i < 0 || i >= s.len() {
        Ok(None)
    } else if is_ws_char(s[i]) {
        spec_parse_node(s, i + 1)
    } else if s[i] == '!' {
        match spec_parse_exec_expression(s, i) {
            Ok((n, j)) => Ok(Some((n, j))),
            Err(e) => Err(e),
        }
    } else if s[i] == ';' {
        let (c, j) = spec_comment(s, i);
        if j <= s.len() {
            spec_parse_node(s, j)
        } else {
            // never reached: the comment scan stops at the end of the input
            Ok(None)
        }
    } else if s[i] == '$' {
        Ok(Some(spec_variable(s, i)))
    } else if s[i] == '(' {
        match spec_parse_expr(s, i) {
            Ok((n, j)) => Ok(Some((n, j))),
            Err(e) => Err(e),
        }
    } else if s[i] == ')' {
        Err(ParseError::UnexpectedCloseParen)
    } else if s[i] == '"' {
        Ok(Some(spec_string(s, i)))
    } else {
        Ok(Some(spec_word(s, i)))
    }
}

/// An exec-expression starting at the `!` at index `i`: the `!` itself is a
/// one-character word token, whitespace after it is dropped, and the next
/// character must open an expression group; the resulting group has exactly
/// those two children.
pub open spec fn spec_parse_exec_expression(s: Seq<char>, i: int) -> Result<
    (SpecNode, int),
    ParseError,
>
    decreases s.len() - i, 1int,
{
    let bang = spec_bang(s, i);
    let k = i + 1 + ws_run(s, i + 1);
    if k < s.len() && s[k] == '(' {
        match spec_parse_expr(s, k) {
            Ok((expr, j)) => Ok((spec_group(byte_pos(s, i), byte_pos(s, j), seq![bang, expr]), j)),
            Err(e) => Err(e),
        }
    } else {
        Err(ParseError::MissingExpressionAfterBang)
    }
}

/// An expression group starting at the `(` at index `i`: an `OpenParen`
/// leaf, then the members up to and including the `CloseParen` leaf.
pub open spec fn spec_parse_expr(s: Seq<char>, i: int) -> Result<(SpecNode, int), ParseError>
    decreases s.len() - i, 0int,
{
    if i < 0 || i >= s.len() {
        // never reached: the caller stands on the opening `(`
        Err(ParseError::UnclosedExpression)
    } else {
        let open = spec_leaf(SyntaxNodeType::OpenParen, byte_pos(s, i), byte_pos(s, i + 1));
        match spec_expr_items(s, i + 1) {
            Ok((rest, j)) => Ok((spec_group(byte_pos(s, i), byte_pos(s, j), seq![open] + rest), j)),
            Err(e) => Err(e),
        }
    }
}

/// The members of an open group from index `i` to just past the matching
/// `)`: whitespace is dropped, comments are kept as children, a `)` closes
/// the group with a final `CloseParen` child, and any other construct is
/// parsed recursively.  Exhausting the input first is an error.
pub open spec fn spec_expr_items(s: Seq<char>, i: int) -> Result<(Seq<SpecNode>, int), ParseError>
    decreases s.len() - i, 3int,
{
    if i < 0 || i >= s.len() {
        Err(ParseError::UnclosedExpression)
    } else if is_ws_char(s[i]) {
        spec_expr_items(s, i + 1)
    } else if s[i] == ';' {
        let (c, j) = spec_comment(s, i);
        if j <= s.len() {
            match spec_expr_items(s, j) {
                Ok((rest, end)) => Ok((seq![c] + rest, end)),
                Err(e) => Err(e),
            }
        } else {
            // never reached: the comment scan stops at the end of the input
            Err(ParseError::UnclosedExpression)
        }
    } else if s[i] == ')' {
        Ok((seq![spec_leaf(SyntaxNodeType::CloseParen, byte_pos(s, i), byte_pos(s, i + 1))], i + 1))
    } else {
        match spec_parse_node(s, i) {
            Err(e) => Err(e),
            Ok(None) => Err(ParseError::UnexpectedEndOfInput),
            Ok(Some((child, k))) => if i < k <= s.len() {
                match spec_expr_items(s, k) {
                    Ok((rest, end)) => Ok((seq![child] + rest, end)),
                    Err(e) => Err(e),
                }
            } else {
                // never reached: a parsed construct always advances
                // (`lemma_parse_node_advances`)
                Err(ParseError::UnexpectedEndOfInput)
            },
        }
    }
}

/// All top-level constructs of the source, in order: the forest the parse
/// returns, or the first error anywhere in the recursion.
pub open spec fn spec_parse_roots(s: Seq<char>, i: int) -> Result<Seq<SpecNode>, ParseError>
    decreases s.len() - i, 3int,
{
    if i < 0 || i >= s.len() {
        Ok(Seq::empty())
    } else {
        match spec_parse_node(s, i) {
            Err(e) => Err(e),
            Ok(None) => Ok(Seq::empty()),
            Ok(Some((n, k))) => if i < k <= s.len() {
                match spec_parse_roots(s, k) {
                    Ok(rest) => Ok(seq![n] + rest),
                    Err(e) => Err(e),
                }
            } else {
                // never reached: a parsed construct always advances
                Ok(seq![n])
            },
        }
    }
}

/// The whole parse of a source text.
pub open spec fn spec_parse(s: Seq<char>) -> Result<Seq<SpecNode>, ParseError> {
    spec_parse_roots(s, 0)
}

/// A successfully parsed construct always advances past its starting index
/// and never past the end of the input.
pub proof fn lemma_parse_node_advances(s: Seq<char>, i: int)
    requires
        0 <= i,
    ensures
        (match spec_parse_node(s, i) {
            Ok(Some((n, k))) => i < k <= s.len(),
            Ok(None) => true,
            Err(_) => true,
        }),
    decreases s.len() - i, 2int,
{
    if 0 <= i < s.len() {
        if is_ws_char(s[i]) {
            lemma_parse_node_advances(s, i + 1);
        } else if s[i] == '!' {
            lemma_exec_expression_advances(s, i);
        } else if s[i] == ';' {
            lemma_comment_run_bound(s, i + 1);
            let (c, j) = spec_comment(s, i);
            if j <= s.len() {
                lemma_parse_node_advances(s, j);
            }
        } else if s[i] == '$' {
            lemma_word_run_bound(s, i + 1);
        } else if s[i] == '(' {
            lemma_parse_expr_advances(s, i);
        } else if s[i] == '"' {
            lemma_string_run_bound(s, i + 1);
        } else {
            lemma_word_run_bound(s, i);
        }
    }
}

/// A successfully parsed exec-expression always advances and stays within
/// the input.
pub proof fn lemma_exec_expression_advances(s: Seq<char>, i: int)
    requires
        0 <= i,
    ensures
        (match spec_parse_exec_expression(s, i) {
            Ok((n, j)) => i < j <= s.len(),
            Err(_) => true,
        }),
    decreases s.len() - i, 1int,
{
    let k = i + 1 + ws_run(s, i + 1);
    if k < s.len() && s[k] == '(' {
        lemma_parse_expr_advances(s, k);
    }
}

/// A successfully parsed expression group always advances and stays within
/// the input.
pub proof fn lemma_parse_expr_advances(s: Seq<char>, i: int)
    requires
        0 <= i,
    ensures
        (match spec_parse_expr(s, i) {
            Ok((n, j)) => i < j <= s.len(),
            Err(_) => true,
        }),
    decreases s.len() - i, 0int,
{
    if i < s.len() {
        lemma_expr_items_advances(s, i + 1);
    }
}

/// Successfully parsed group members always end just past the closing `)`,
/// strictly beyond where they began and within the input.
pub proof fn lemma_expr_items_advances(s: Seq<char>, i: int)
    requires
        0 <= i,
    ensures
        (match spec_expr_items(s, i) {
            Ok((rest, end)) => i < end <= s.len(),
            Err(_) => true,
        }),
    decreases s.len() - i, 3int,
{
    if 0 <= i < s.len() {
        if is_ws_char(s[i]) {
            lemma_expr_items_advances(s, i + 1);
        } else if s[i] == ';' {
            let (c, j) = spec_comment(s, i);
            lemma_comment_run_bound(s, i + 1);
            if j <= s.len() {
                lemma_expr_items_advances(s, j);
            }
        } else if s[i] == ')' {
        } else {
            lemma_parse_node_advances(s, i);
            match spec_parse_node(s, i) {
                Ok(Some((child, k))) => {
                    if i < k <= s.len() {
                        lemma_expr_items_advances(s, k);
                    }
                },
                _ => {},
            }
        }
    }
}

/// Executable counterpart of `is_ws_char`.
fn ws_char(c: char) -> (r: bool)
    ensures
        r == is_ws_char(c),
{
    let u = c as u32;
    (0x09 <= u && u <= 0x0D) || u == 0x20 || u == 0x85 || u == 0xA0 || u == 0x1680 || (0x2000 <= u
        && u <= 0x200A) || u == 0x2028 || u == 0x2029 || u == 0x202F || u == 0x205F || u == 0x3000
}

/// Executable counterpart of `is_stop_char`.
fn stop_char(c: char) -> (r: bool)
    ensures
        r == is_stop_char(c),
{
    ws_char(c) || c == '(' || c == ')' || c == ';'
}

/// Consume a comment: the `;` at the cursor and everything before the next
/// newline (or to the end of input).  Comments carry their content only via
/// their range, never via text.
fn parse_comment(s: &str, cur: Cursor) -> (r: (SyntaxNode, Cursor))
    requires
        cur.wf(s@),
        cur.pos < s@.len(),
        s@[cur.pos as int] == ';',
        byte_pos(s@, s@.len() as int) <= usize::MAX,
    ensures
        r.1.wf(s@),
        (r.0.model(), r.1.pos as int) == spec_comment(s@, cur.pos as int),
{
    let start = cur;
    let mut c = cur.advance(s);
    loop
        invariant
            c.wf(s@),
            cur.pos < c.pos <= s@.len(),
            byte_pos(s@, s@.len() as int) <= usize::MAX,
            comment_run(s@, cur.pos + 1) == (c.pos - (cur.pos + 1)) + comment_run(
                s@,
                c.pos as int,
            ),
        ensures
            c.wf(s@),
            cur.pos < c.pos <= s@.len(),
            comment_run(s@, cur.pos + 1) == c.pos - (cur.pos + 1),
        decreases s@.len() - c.pos,
    {
        if c.at_end(s) {
            break;
        }
        let ch = c.peek(s);
        if ch == '\n' {
            break;
        }
        c = c.advance(s);
    }
    (SyntaxNode::new(SyntaxNodeType::Comment, start.byte, c.byte, Vec::new()), c)
}

/// Consume a word token: the run of characters up to the next whitespace or
/// delimiter.
fn parse_word(s: &str, cur: Cursor) -> (r: (SyntaxNode, Cursor))
    requires
        cur.wf(s@),
        byte_pos(s@, s@.len() as int) <= usize::MAX,
    ensures
        r.1.wf(s@),
        (r.0.model(), r.1.pos as int) == spec_word(s@, cur.pos as int),
{
    let start = cur;
    let mut c = cur;
    loop
        invariant
            c.wf(s@),
            start.pos <= c.pos <= s@.len(),
            byte_pos(s@, s@.len() as int) <= usize::MAX,
            word_run(s@, start.pos as int) == (c.pos - start.pos) + word_run(s@, c.pos as int),
        ensures
            c.wf(s@),
            start.pos <= c.pos <= s@.len(),
            word_run(s@, start.pos as int) == c.pos - start.pos,
        decreases s@.len() - c.pos,
    {
        if c.at_end(s) {
            break;
        }
        if stop_char(c.peek(s)) {
            break;
        }
        c = c.advance(s);
    }
    let text = s.substring_char(start.pos, c.pos).to_owned();
    (SyntaxNode::new_token_node(SyntaxNodeType::WordToken, start.byte, c.byte, text), c)
}

/// Consume a variable token: the `$` at the cursor and the run up to the
/// next whitespace or delimiter; the text excludes the `$`.
fn parse_variable(s: &str, cur: Cursor) -> (r: (SyntaxNode, Cursor))
    requires
        cur.wf(s@),
        cur.pos < s@.len(),
        s@[cur.pos as int] == '$',
        byte_pos(s@, s@.len() as int) <= usize::MAX,
    ensures
        r.1.wf(s@),
        (r.0.model(), r.1.pos as int) == spec_variable(s@, cur.pos as int),
{
    let start = cur;
    let after_dollar = cur.advance(s);
    let mut c = after_dollar;
    loop
        invariant
            c.wf(s@),
            after_dollar.pos <= c.pos <= s@.len(),
            byte_pos(s@, s@.len() as int) <= usize::MAX,
            word_run(s@, after_dollar.pos as int) == (c.pos - after_dollar.pos) + word_run(
                s@,
                c.pos as int,
            ),
        ensures
            c.wf(s@),
            after_dollar.pos <= c.pos <= s@.len(),
            word_run(s@, after_dollar.pos as int) == c.pos - after_dollar.pos,
        decreases s@.len() - c.pos,
    {
        if c.at_end(s) {
            break;
        }
        if stop_char(c.peek(s)) {
            break;
        }
        c = c.advance(s);
    }
    let text = s.substring_char(after_dollar.pos, c.pos).to_owned();
    (SyntaxNode::new_token_node(SyntaxNodeType::VariableToken, start.byte, c.byte, text), c)
}

/// Consume a string token: the opening quote, the interior, and the closing
/// quote if one appears before the end of input (an unterminated string is
/// accepted silently).  The text is the interior; the quotes are only in the
/// range.
fn parse_string(s: &str, cur: Cursor) -> (r: (SyntaxNode, Cursor))
    requires
        cur.wf(s@),
        cur.pos < s@.len(),
        s@[cur.pos as int] == '"',
        byte_pos(s@, s@.len() as int) <= usize::MAX,
    ensures
        r.1.wf(s@),
        (r.0.model(), r.1.pos as int) == spec_string(s@, cur.pos as int),
{
    let start = cur;
    let interior = cur.advance(s);
    let mut c = interior;
    let mut closed = false;
    loop
        invariant_except_break
            !closed,
            forall|t: int| interior.pos <= t < c.pos ==> s@[t] != '"',
            string_run(s@, interior.pos as int) == (c.pos - interior.pos) + string_run(
                s@,
                c.pos as int,
            ),
        invariant
            c.wf(s@),
            interior.pos <= c.pos <= s@.len(),
            byte_pos(s@, s@.len() as int) <= usize::MAX,
        ensures
            c.wf(s@),
            interior.pos <= c.pos <= s@.len(),
            string_run(s@, interior.pos as int) == c.pos - interior.pos,
            closed ==> c.pos > interior.pos && s@[c.pos - 1] == '"',
            !closed ==> (c.pos == interior.pos || s@[c.pos - 1] != '"'),
        decreases s@.len() - c.pos,
    {
        if c.at_end(s) {
            break;
        }
        let ch = c.peek(s);
        c = c.advance(s);
        if ch == '"' {
            closed = true;
            break;
        }
    }
    let text = if closed {
        s.substring_char(interior.pos, c.pos - 1).to_owned()
    } else {
        s.substring_char(interior.pos, c.pos).to_owned()
    };
    (SyntaxNode::new_token_node(SyntaxNodeType::StringToken, start.byte, c.byte, text), c)
}

/// Parse one top-level construct at the cursor, dropping leading whitespace
/// and top-level comments: the node and the cursor past it, `Ok(None)` once
/// the input is exhausted, or the first error.
fn parse_to_syntax_tree(s: &str, cur: Cursor) -> (r: Result<
    (Option<SyntaxNode>, Cursor),
    ParseError,
>)
    requires
        cur.wf(s@),
        byte_pos(s@, s@.len() as int) <= usize::MAX,
    ensures
        (match spec_parse_node(s@, cur.pos as int) {
            Ok(None) => r matches Ok(rr) && rr.0 is None && rr.1.wf(s@) && rr.1.pos == s@.len(),
            Ok(Some((n, k))) => r matches Ok(rr) && rr.1.wf(s@) && rr.1.pos == k && (rr.0 matches Some(node)
                && node.model() == n),
            Err(e) => r == Err::<(Option<SyntaxNode>, Cursor), ParseError>(e),
        }),
    decreases s@.len() - cur.pos, 2int,
{
    let mut c = cur;
    loop
        invariant
            c.wf(s@),
            cur.pos <= c.pos <= s@.len(),
            byte_pos(s@, s@.len() as int) <= usize::MAX,
            spec_parse_node(s@, cur.pos as int) == spec_parse_node(s@, c.pos as int),
        ensures
            c.wf(s@),
            cur.pos <= c.pos <= s@.len(),
            spec_parse_node(s@, cur.pos as int) == spec_parse_node(s@, c.pos as int),
            c.pos == s@.len() || (!is_ws_char(s@[c.pos as int]) && s@[c.pos as int] != ';'),
        decreases s@.len() - c.pos,
    {
        if c.at_end(s) {
            break;
        }
        let ch = c.peek(s);
        if ws_char(ch) {
            c = c.advance(s);
        } else if ch == ';' {
            let (_com, c2) = parse_comment(s, c);
            c = c2;
        } else {
            break;
        }
    }
    if c.at_end(s) {
        return Ok((None, c));
    }
    let ch = c.peek(s);
    if ch == '!' {
        match parse_exec_expression(s, c) {
            Ok((n, c2)) => Ok((Some(n), c2)),
            Err(e) => Err(e),
        }
    } else if ch == '$' {
        let (n, c2) = parse_variable(s, c);
        Ok((Some(n), c2))
    } else if ch == '(' {
        match parse_expr(s, c) {
            Ok((n, c2)) => Ok((Some(n), c2)),
            Err(e) => Err(e),
        }
    } else if ch == ')' {
        Err(ParseError::UnexpectedCloseParen)
    } else if ch == '"' {
        let (n, c2) = parse_string(s, c);
        Ok((Some(n), c2))
    } else {
        let (n, c2) = parse_word(s, c);
        Ok((Some(n), c2))
    }
}

/// Parse an exec-expression: the `!` at the cursor as a one-character word
/// token, then the parenthesized expression that must follow it.
fn parse_exec_expression(s: &str, cur: Cursor) -> (r: Result<(SyntaxNode, Cursor), ParseError>)
    requires
        cur.wf(s@),
        cur.pos < s@.len(),
        s@[cur.pos as int] == '!',
        byte_pos(s@, s@.len() as int) <= usize::MAX,
    ensures
        (match spec_parse_exec_expression(s@, cur.pos as int) {
            Ok((n, j)) => r matches Ok(rr) && rr.0.model() == n && rr.1.pos == j && rr.1.wf(s@),
            Err(e) => r == Err::<(SyntaxNode, Cursor), ParseError>(e),
        }),
    decreases s@.len() - cur.pos, 1int,
{
    let start = cur;
    let bang_end = cur.advance(s);
    let text = s.substring_char(start.pos, bang_end.pos).to_owned();
    let bang = SyntaxNode::new_token_node(
        SyntaxNodeType::WordToken,
        start.byte,
        bang_end.byte,
        text,
    );
    proof {
        assert(bang.model() == spec_bang(s@, start.pos as int));
    }
    let mut c = bang_end;
    loop
        invariant
            c.wf(s@),
            bang_end.pos <= c.pos <= s@.len(),
            byte_pos(s@, s@.len() as int) <= usize::MAX,
            ws_run(s@, bang_end.pos as int) == (c.pos - bang_end.pos) + ws_run(s@, c.pos as int),
        ensures
            c.wf(s@),
            bang_end.pos <= c.pos <= s@.len(),
            ws_run(s@, bang_end.pos as int) == c.pos - bang_end.pos,
        decreases s@.len() - c.pos,
    {
        if c.at_end(s) {
            break;
        }
        if !ws_char(c.peek(s)) {
            break;
        }
        c = c.advance(s);
    }
    if c.at_end(s) {
        return Err(ParseError::MissingExpressionAfterBang);
    }
    if c.peek(s) != '(' {
        return Err(ParseError::MissingExpressionAfterBang);
    }
    match parse_expr(s, c) {
        Ok((expr, c2)) => {
            let mut children: Vec<SyntaxNode> = Vec::new();
            children.push(bang);
            children.push(expr);
            proof {
                lemma_models_index(children@);
                assert(children@[0] == bang);
                assert(children@[1] == expr);
                assert(models(children@) =~= seq![bang.model(), expr.model()]);
            }
            Ok(
                (
                    SyntaxNode::new(SyntaxNodeType::ExpressionGroup, start.byte, c2.byte, children),
                    c2,
                ),
            )
        },
        Err(e) => Err(e),
    }
}

/// Parse an expression group from the `(` at the cursor through its matching
/// `)`: the delimiters, retained comments, and recursively parsed members
/// become the children, in source order.
#[verifier::loop_isolation(false)]
fn parse_expr(s: &str, cur: Cursor) -> (r: Result<(SyntaxNode, Cursor), ParseError>)
    requires
        cur.wf(s@),
        cur.pos < s@.len(),
        s@[cur.pos as int] == '(',
        byte_pos(s@, s@.len() as int) <= usize::MAX,
    ensures
        (match spec_parse_expr(s@, cur.pos as int) {
            Ok((n, j)) => r matches Ok(rr) && rr.0.model() == n && rr.1.pos == j && rr.1.wf(s@),
            Err(e) => r == Err::<(SyntaxNode, Cursor), ParseError>(e),
        }),
    decreases s@.len() - cur.pos, 0int,
{
    let start = cur;
    let mut c = cur.advance(s);
    let open = SyntaxNode::new(SyntaxNodeType::OpenParen, start.byte, c.byte, Vec::new());
    let ghost open_model = spec_leaf(
        SyntaxNodeType::OpenParen,
        byte_pos(s@, start.pos as int),
        byte_pos(s@, start.pos + 1),
    );
    let mut children: Vec<SyntaxNode> = Vec::new();
    children.push(open);
    let ghost done = Seq::<SpecNode>::empty();
    proof {
        lemma_models_index(children@);
        assert(models(children@) =~= seq![open_model] + done);
    }
    loop
        invariant
            c.wf(s@),
            start.pos < c.pos <= s@.len(),
            byte_pos(s@, s@.len() as int) <= usize::MAX,
            models(children@) == seq![open_model] + done,
            (match spec_expr_items(s@, c.pos as int) {
                Ok((rest, end)) => spec_expr_items(s@, start.pos + 1) == Ok::<
                    (Seq<SpecNode>, int),
                    ParseError,
                >((done + rest, end)),
                Err(e) => spec_expr_items(s@, start.pos + 1) == Err::<
                    (Seq<SpecNode>, int),
                    ParseError,
                >(e),
            }),
        decreases s@.len() - c.pos,
    {
        if c.at_end(s) {
            return Err(ParseError::UnclosedExpression);
        }
        let ch = c.peek(s);
        if ws_char(ch) {
            c = c.advance(s);
        } else if ch == ';' {
            let (com, c2) = parse_comment(s, c);
            proof {
                lemma_models_push(children@, com);
                assert forall|rest: Seq<SpecNode>| true implies done + (seq![com.model()] + rest)
                    == (done + seq![com.model()]) + rest by {
                    assert(done + (seq![com.model()] + rest) =~= (done + seq![com.model()]) + rest);
                }
            }
            children.push(com);
            proof {
                done = done + seq![com.model()];
                assert(models(children@) =~= seq![open_model] + done);
            }
            c = c2;
        } else if ch == ')' {
            let c2 = c.advance(s);
            let closep = SyntaxNode::new(SyntaxNodeType::CloseParen, c.byte, c2.byte, Vec::new());
            proof {
                lemma_models_push(children@, closep);
            }
            children.push(closep);
            proof {
                assert(done + seq![closep.model()] =~= done.push(closep.model()));
                assert(models(children@) =~= seq![open_model] + (done + seq![closep.model()]));
                assert(seq![open_model] + (done + seq![closep.model()]) =~= (seq![open_model]
                    + done).push(closep.model()));
            }
            let group = SyntaxNode::new(
                SyntaxNodeType::ExpressionGroup,
                start.byte,
                c2.byte,
                children,
            );
            return Ok((group, c2));
        } else {
            match parse_to_syntax_tree(s, c) {
                Err(e) => {
                    return Err(e);
                },
                Ok((None, _c2)) => {
                    // never reached: at a non-whitespace character a parse
                    // yields a node or an error
                    return Err(ParseError::UnexpectedEndOfInput);
                },
                Ok((Some(child), c2)) => {
                    proof {
                        lemma_parse_node_advances(s@, c.pos as int);
                        lemma_models_push(children@, child);
                        assert forall|rest: Seq<SpecNode>| true implies done + (seq![child.model()]
                            + rest) == (done + seq![child.model()]) + rest by {
                            assert(done + (seq![child.model()] + rest) =~= (done + seq![
                                child.model(),
                            ]) + rest);
                        }
                    }
                    children.push(child);
                    proof {
                        done = done + seq![child.model()];
                        assert(models(children@) =~= seq![open_model] + done);
                    }
                    c = c2;
                },
            }
        }
    }
}

/// Parse a source text into its ordered forest of top-level syntax nodes.
///
/// Returns exactly what the grammar (`spec_parse`) describes: on success the
/// models of the returned roots are the nodes of the mathematical parse, and
/// on failure the error is the first one the grammar meets.  The
/// precondition only asks that the UTF-8 length of the text fits in `usize`,
/// which holds of any string held in memory.
pub fn parse(code: &str) -> (r: Result<Vec<SyntaxNode>, ParseError>)
    requires
        byte_pos(code@, code@.len() as int) <= usize::MAX,
    ensures
        (match spec_parse(code@) {
            Ok(ns) => r matches Ok(v) && models(v@) == ns,
            Err(e) => r == Err::<Vec<SyntaxNode>, ParseError>(e),
        }),
{
    let mut roots: Vec<SyntaxNode> = Vec::new();
    let mut c = Cursor::start();
    proof {
        lemma_models_index(roots@);
    }
    loop
        invariant
            c.wf(code@),
            byte_pos(code@, code@.len() as int) <= usize::MAX,
            (match spec_parse_roots(code@, c.pos as int) {
                Ok(rest) => spec_parse_roots(code@, 0) == Ok::<Seq<SpecNode>, ParseError>(
                    models(roots@) + rest,
                ),
                Err(e) => spec_parse_roots(code@, 0) == Err::<Seq<SpecNode>, ParseError>(e),
            }),
        decreases code@.len() - c.pos,
    {
        match parse_to_syntax_tree(code, c) {
            Err(e) => {
                return Err(e);
            },
            Ok((None, _c2)) => {
                proof {
                    assert(models(roots@) + Seq::<SpecNode>::empty() =~= models(roots@));
                }
                return Ok(roots);
            },
            Ok((Some(n), c2)) => {
                proof {
                    lemma_parse_node_advances(code@, c.pos as int);
                    lemma_models_push(roots@, n);
                    assert forall|rest: Seq<SpecNode>| true implies models(roots@) + (seq![
                        n.model(),
                    ] + rest) == models(roots@).push(n.model()) + rest by {
                        assert(models(roots@) + (seq![n.model()] + rest) =~= models(roots@).push(
                            n.model(),
                        ) + rest);
                    }
                }
                roots.push(n);
                c = c2;
            },
        }
    }
}

} // verus!
