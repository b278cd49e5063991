//! From tree to text and back: the canonical text of a tree lexes to the
//! canonical writing of that tree, which parses to the tree itself.

use crate::ast::{Expr, InfixOperator, PrefixOperator, Stmt};
use crate::lexer::{
    digits_length, is_digit, is_letter, is_skipped, is_word_char, punctuation, scan, tokens,
    word_length, word_token,
};
use crate::parser::grammar::{parse_program, Outcome};
use crate::parser::number::lemma_render_natural;
use crate::parser::reading::theorem_read_back;
use crate::parser::phrase::{cons, infix_token, prefix_token};
use crate::parser::writing::{
    writable_program, written_block, written_expression, written_list, written_program,
    written_statement, written_statements,
};
use crate::render::{
    infix_symbol, prefix_symbol, render_block, render_block_items, render_expression, render_lines,
    render_list, render_natural, render_program, render_statement,
};
use crate::token::Tok;
use vstd::prelude::*;

verus! {

/// The tokens of a text are its first token and the tokens of what follows.
pub proof fn lemma_tokens_unfold(text: Seq<char>)
    ensures
        scan(text).0 is EOF ==> tokens(text) == Seq::<Tok>::empty(),
        !(scan(text).0 is EOF) ==> tokens(text) == cons(scan(text).0, tokens(scan(text).1)),
{
    reveal(cons);
}

/// A character that starts no token leaves no trace among the tokens.
pub proof fn lemma_lex_skipped(c: char, rest: Seq<char>)
    requires
        is_skipped(c),
    ensures
        tokens(seq![c] + rest) == tokens(rest),
{
    let text = seq![c] + rest;
    assert(text[0] == c);
    assert(text.skip(1) =~= rest);
    assert(scan(text) == scan(rest));
    lemma_tokens_unfold(text);
    lemma_tokens_unfold(rest);
}

/// A punctuation character that no `=` turns into a two-character operator
/// gives its own token.
pub proof fn lemma_lex_punctuation(c: char, rest: Seq<char>)
    requires
        punctuation(c) is Some,
        !((c == '=' || c == '!') && rest.len() > 0 && rest[0] == '='),
    ensures
        tokens(seq![c] + rest) == cons(punctuation(c)->0, tokens(rest)),
{
    let text = seq![c] + rest;
    assert(text[0] == c);
    assert(text.skip(1) =~= rest);
    if rest.len() > 0 {
        assert(text[1] == rest[0]);
    }
    lemma_tokens_unfold(text);
}

/// `==` and `!=` give one token each.
pub proof fn lemma_lex_pair(c: char, rest: Seq<char>)
    requires
        c == '=' || c == '!',
    ensures
        tokens(seq![c, '='] + rest) == cons(
            if c == '=' {
                Tok::Eq
            } else {
                Tok::NotEq
            },
            tokens(rest),
        ),
{
    let text = seq![c, '='] + rest;
    assert(text[0] == c);
    assert(text[1] == '=');
    assert(text.skip(2) =~= rest);
    lemma_tokens_unfold(text);
}

/// Whether every character of `word` may stand in a word.
pub open spec fn all_word_chars(word: Seq<char>) -> bool {
    forall|i: int| 0 <= i < word.len() ==> is_word_char(#[trigger] word[i])
}

/// Whether `rest` cannot lengthen a word or a number that stands before it.
pub open spec fn ends_word(rest: Seq<char>) -> bool {
    rest.len() == 0 || !is_word_char(rest[0])
}

/// A run of word characters before a text that ends it is the longest run.
pub proof fn lemma_word_length(word: Seq<char>, rest: Seq<char>)
    requires
        all_word_chars(word),
        ends_word(rest),
    ensures
        word_length(word + rest) == word.len(),
    decreases word.len(),
{
    let text = word + rest;
    if word.len() == 0 {
        assert(text =~= rest);
    } else {
        assert(text[0] == word[0]);
        assert(text.skip(1) =~= word.skip(1) + rest);
        assert forall|i: int| 0 <= i < word.skip(1).len() implies is_word_char(
            #[trigger] word.skip(1)[i],
        ) by {
            assert(word.skip(1)[i] == word[i + 1]);
        }
        lemma_word_length(word.skip(1), rest);
    }
}

/// A run of digits before a text that ends it is the longest run.
pub proof fn lemma_digits_length(digits: Seq<char>, rest: Seq<char>)
    requires
        forall|i: int| 0 <= i < digits.len() ==> is_digit(#[trigger] digits[i]),
        ends_word(rest),
    ensures
        digits_length(digits + rest) == digits.len(),
    decreases digits.len(),
{
    let text = digits + rest;
    if digits.len() == 0 {
        assert(text =~= rest);
    } else {
        assert(text[0] == digits[0]);
        assert(text.skip(1) =~= digits.skip(1) + rest);
        assert forall|i: int| 0 <= i < digits.skip(1).len() implies is_digit(
            #[trigger] digits.skip(1)[i],
        ) by {
            assert(digits.skip(1)[i] == digits[i + 1]);
        }
        lemma_digits_length(digits.skip(1), rest);
    }
}

/// A word before a text that ends it gives the token of the word.
pub proof fn lemma_lex_word(word: Seq<char>, rest: Seq<char>)
    requires
        word.len() > 0,
        is_letter(word[0]),
        all_word_chars(word),
        ends_word(rest),
    ensures
        tokens(word + rest) == cons(word_token(word), tokens(rest)),
{
    let text = word + rest;
    assert(text[0] == word[0]);
    lemma_word_length(word, rest);
    assert(text.take(word.len() as int) =~= word);
    assert(text.skip(word.len() as int) =~= rest);
    lemma_tokens_unfold(text);
}

/// A number before a text that ends it gives an integer token.
pub proof fn lemma_lex_digits(digits: Seq<char>, rest: Seq<char>)
    requires
        digits.len() > 0,
        forall|i: int| 0 <= i < digits.len() ==> is_digit(#[trigger] digits[i]),
        ends_word(rest),
    ensures
        tokens(digits + rest) == cons(Tok::Integer(digits), tokens(rest)),
{
    let text = digits + rest;
    assert(text[0] == digits[0]);
    lemma_digits_length(digits, rest);
    assert(text.take(digits.len() as int) =~= digits);
    assert(text.skip(digits.len() as int) =~= rest);
    lemma_tokens_unfold(text);
}

/// Whether `word` can stand in a text as a word of its own.
pub open spec fn is_word(word: Seq<char>) -> bool {
    word.len() > 0 && is_letter(word[0]) && all_word_chars(word)
}

/// The keywords are words, and each denotes its own token.
pub proof fn lemma_keywords()
    ensures
        is_word("let"@) && word_token("let"@) == Tok::Let,
        is_word("fn"@) && word_token("fn"@) == Tok::Function,
        is_word("if"@) && word_token("if"@) == Tok::If,
        is_word("else"@) && word_token("else"@) == Tok::Else,
        is_word("return"@) && word_token("return"@) == Tok::Return,
        is_word("true"@) && word_token("true"@) == Tok::True,
        is_word("false"@) && word_token("false"@) == Tok::False,
{
    reveal_strlit("let");
    reveal_strlit("fn");
    reveal_strlit("if");
    reveal_strlit("else");
    reveal_strlit("return");
    reveal_strlit("true");
    reveal_strlit("false");
    assert("fn"@[0] != "if"@[0]);
    assert("else"@[0] != "true"@[0]);
    assert("return"@[0] != "false"@[0]);
}

/// The tokens of the brackets and separators of the canonical text.
pub proof fn lemma_lex_marks(rest: Seq<char>)
    ensures
        tokens("("@ + rest) == cons(Tok::LParen, tokens(rest)),
        tokens(")"@ + rest) == cons(Tok::RParen, tokens(rest)),
        tokens("}"@ + rest) == cons(Tok::RBrace, tokens(rest)),
        tokens(";"@ + rest) == cons(Tok::Semicolon, tokens(rest)),
        tokens(" "@ + rest) == tokens(rest),
        tokens("\n"@ + rest) == tokens(rest),
{
    reveal_strlit("(");
    reveal_strlit(")");
    reveal_strlit("}");
    reveal_strlit(";");
    reveal_strlit(" ");
    reveal_strlit("\n");
    assert("("@ =~= seq!['(']);
    assert(")"@ =~= seq![')']);
    assert("}"@ =~= seq!['}']);
    assert(";"@ =~= seq![';']);
    assert(" "@ =~= seq![' ']);
    assert("\n"@ =~= seq!['\n']);
    lemma_lex_punctuation('(', rest);
    lemma_lex_punctuation(')', rest);
    lemma_lex_punctuation('}', rest);
    lemma_lex_punctuation(';', rest);
    lemma_lex_skipped(' ', rest);
    lemma_lex_skipped('\n', rest);
}

/// The tokens of the marks that are followed by a space.
pub proof fn lemma_lex_spaced_marks(rest: Seq<char>)
    ensures
        tokens(") "@ + rest) == cons(Tok::RParen, tokens(rest)),
        tokens("{ "@ + rest) == cons(Tok::LBrace, tokens(rest)),
        tokens(", "@ + rest) == cons(Tok::Comma, tokens(rest)),
        tokens(" = "@ + rest) == cons(Tok::Assign, tokens(rest)),
{
    reveal_strlit(") ");
    reveal_strlit("{ ");
    reveal_strlit(", ");
    reveal_strlit(" = ");
    let spaced = seq![' '] + rest;
    lemma_lex_skipped(' ', rest);
    assert(") "@ + rest =~= seq![')'] + spaced);
    lemma_lex_punctuation(')', spaced);
    assert("{ "@ + rest =~= seq!['{'] + spaced);
    lemma_lex_punctuation('{', spaced);
    assert(", "@ + rest =~= seq![','] + spaced);
    lemma_lex_punctuation(',', spaced);
    assert(" = "@ + rest =~= seq![' '] + (seq!['='] + spaced));
    lemma_lex_punctuation('=', spaced);
    lemma_lex_skipped(' ', seq!['='] + spaced);
}

/// The tokens of the keywords as the canonical text sets them.
pub proof fn lemma_lex_keywords(rest: Seq<char>)
    ensures
        tokens("if ("@ + rest) == cons(Tok::If, cons(Tok::LParen, tokens(rest))),
        tokens("fn("@ + rest) == cons(Tok::Function, cons(Tok::LParen, tokens(rest))),
        tokens(" else "@ + rest) == cons(Tok::Else, tokens(rest)),
        tokens("let "@ + rest) == cons(Tok::Let, tokens(rest)),
        tokens("return "@ + rest) == cons(Tok::Return, tokens(rest)),
        ends_word(rest) ==> tokens("true"@ + rest) == cons(Tok::True, tokens(rest)),
        ends_word(rest) ==> tokens("false"@ + rest) == cons(Tok::False, tokens(rest)),
{
    lemma_keywords();
    reveal_strlit("if (");
    reveal_strlit("fn(");
    reveal_strlit(" else ");
    reveal_strlit("let ");
    reveal_strlit("return ");
    reveal_strlit("let");
    reveal_strlit("fn");
    reveal_strlit("if");
    reveal_strlit("else");
    reveal_strlit("return");
    let spaced = seq![' '] + rest;
    let opened = seq!['('] + rest;
    lemma_lex_skipped(' ', rest);
    lemma_lex_punctuation('(', rest);
    assert("if ("@ + rest =~= "if"@ + (seq![' '] + opened));
    lemma_lex_skipped(' ', opened);
    lemma_lex_word("if"@, seq![' '] + opened);
    assert("fn("@ + rest =~= "fn"@ + opened);
    lemma_lex_word("fn"@, opened);
    assert(" else "@ + rest =~= seq![' '] + ("else"@ + spaced));
    lemma_lex_word("else"@, spaced);
    lemma_lex_skipped(' ', "else"@ + spaced);
    assert("let "@ + rest =~= "let"@ + spaced);
    lemma_lex_word("let"@, spaced);
    assert("return "@ + rest =~= "return"@ + spaced);
    lemma_lex_word("return"@, spaced);
    if ends_word(rest) {
        lemma_lex_word("true"@, rest);
        lemma_lex_word("false"@, rest);
    }
}

/// The token of a unary operator's symbol, which must not stand before `=`.
pub proof fn lemma_lex_prefix_symbol(operator: PrefixOperator, rest: Seq<char>)
    requires
        rest.len() == 0 || rest[0] != '=',
    ensures
        tokens(prefix_symbol(operator) + rest) == cons(prefix_token(operator), tokens(rest)),
{
    reveal_strlit("!");
    reveal_strlit("-");
    assert("!"@ =~= seq!['!']);
    assert("-"@ =~= seq!['-']);
    lemma_lex_punctuation('!', rest);
    lemma_lex_punctuation('-', rest);
}

/// The token of a binary operator's symbol between two spaces.
pub proof fn lemma_lex_infix_symbol(operator: InfixOperator, rest: Seq<char>)
    ensures
        tokens(" "@ + infix_symbol(operator) + " "@ + rest) == cons(
            infix_token(operator),
            tokens(rest),
        ),
{
    reveal_strlit(" ");
    reveal_strlit("+");
    reveal_strlit("-");
    reveal_strlit("*");
    reveal_strlit("/");
    reveal_strlit("==");
    reveal_strlit("!=");
    reveal_strlit(">");
    reveal_strlit("<");
    let text = " "@ + infix_symbol(operator) + " "@ + rest;
    let spaced = seq![' '] + rest;
    lemma_lex_skipped(' ', rest);
    match operator {
        InfixOperator::Equal => {
            assert(text =~= seq![' '] + (seq!['=', '='] + spaced));
            lemma_lex_pair('=', spaced);
            lemma_lex_skipped(' ', seq!['=', '='] + spaced);
        },
        InfixOperator::NotEqual => {
            assert(text =~= seq![' '] + (seq!['!', '='] + spaced));
            lemma_lex_pair('!', spaced);
            lemma_lex_skipped(' ', seq!['!', '='] + spaced);
        },
        _ => {
            let c = infix_symbol(operator)[0];
            assert(text =~= seq![' '] + (seq![c] + spaced));
            lemma_lex_punctuation(c, spaced);
            lemma_lex_skipped(' ', seq![c] + spaced);
        },
    }
}

/// The marks that follow an expression in the canonical text all end a word.
pub proof fn lemma_marks_end_words(rest: Seq<char>)
    ensures
        ends_word(" "@ + rest),
        ends_word(")"@ + rest),
        ends_word(") "@ + rest),
        ends_word("("@ + rest),
        ends_word(", "@ + rest),
        ends_word(";"@ + rest),
        ends_word("\n"@ + rest),
{
    reveal_strlit(" ");
    reveal_strlit(")");
    reveal_strlit(") ");
    reveal_strlit("(");
    reveal_strlit(", ");
    reveal_strlit(";");
    reveal_strlit("\n");
    assert((" "@ + rest)[0] == ' ');
    assert((")"@ + rest)[0] == ')');
    assert((") "@ + rest)[0] == ')');
    assert(("("@ + rest)[0] == '(');
    assert((", "@ + rest)[0] == ',');
    assert((";"@ + rest)[0] == ';');
    assert(("\n"@ + rest)[0] == '\n');
}

/// A name that the lexer reads as an identifier: a word that is no keyword.
pub open spec fn is_name(name: Seq<char>) -> bool {
    is_word(name) && word_token(name) == Tok::Identifier(name)
}

/// The trees whose canonical text the lexer reads as their canonical
/// writing: every identifier is a name, and no integer literal is negative
/// (the text of a negative one reads as a negation).
pub open spec fn lexable_expression(tree: Expr) -> bool
    decreases tree, 0nat,
{
    match tree {
        Expr::Identifier(name) => is_name(name),
        Expr::Int(value) => value >= 0,
        Expr::Bool(_) => true,
        Expr::Prefix { operator, operand } => lexable_expression(*operand),
        Expr::Infix { operator, left, right } => lexable_expression(*left) && lexable_expression(
            *right,
        ),
        Expr::If { condition, consequence, alternative } => lexable_expression(*condition)
            && lexable_statements(consequence) && match alternative {
            Some(block) => lexable_statements(block),
            None => true,
        },
        Expr::Function { parameters, body } => lexable_list(parameters) && lexable_statements(
            body,
        ),
        Expr::Call { function, arguments } => lexable_expression(*function) && lexable_list(
            arguments,
        ),
    }
}

/// Whether every expression of `list` is lexable.
pub open spec fn lexable_list(list: Seq<Expr>) -> bool
    decreases list, 1nat,
{
    forall|i: int| 0 <= i < list.len() ==> lexable_expression(#[trigger] list[i])
}

/// Whether every statement of `list` is lexable.
pub open spec fn lexable_statements(list: Seq<Stmt>) -> bool
    decreases list, 1nat,
{
    forall|i: int| 0 <= i < list.len() ==> lexable_statement(#[trigger] list[i])
}

/// Whether the name and the expression of a statement are lexable.
pub open spec fn lexable_statement(tree: Stmt) -> bool
    decreases tree, 0nat,
{
    match tree {
        Stmt::Let { name, value } => is_name(name) && lexable_expression(value),
        Stmt::Return { value } => lexable_expression(value),
        Stmt::Expression(value) => lexable_expression(value),
    }
}

/// The canonical text of a lexable expression starts with a letter, a digit
/// or `(`.
pub proof fn lemma_first_char(tree: Expr)
    requires
        lexable_expression(tree),
    ensures
        render_expression(tree).len() > 0,
        is_letter(render_expression(tree)[0]) || is_digit(render_expression(tree)[0])
            || render_expression(tree)[0] == '(',
    decreases tree,
{
    reveal_strlit("(");
    reveal_strlit("true");
    reveal_strlit("false");
    reveal_strlit("if (");
    reveal_strlit("fn(");
    match tree {
        Expr::Identifier(name) => {},
        Expr::Int(value) => {
            lemma_render_natural(value as nat);
            assert(is_digit(render_natural(value as nat)[0]));
        },
        Expr::Bool(value) => {},
        Expr::Prefix { operator, operand } => {},
        Expr::Infix { operator, left, right } => {},
        Expr::If { condition, consequence, alternative } => {},
        Expr::Function { parameters, body } => {},
        Expr::Call { function, arguments } => {
            lemma_first_char(*function);
        },
    }
}

/// The canonical text of a lexable expression, before a text that ends a
/// word, lexes to the canonical writing of the expression.
pub proof fn lemma_lex_expression(tree: Expr, rest: Seq<char>)
    requires
        lexable_expression(tree),
        ends_word(rest),
    ensures
        tokens(render_expression(tree) + rest) == written_expression(tree, tokens(rest)),
    decreases tree, 1nat,
{
    match tree {
        Expr::Identifier(name) => {
            lemma_lex_word(name, rest);
        },
        Expr::Int(value) => {
            lemma_render_natural(value as nat);
            lemma_lex_digits(render_natural(value as nat), rest);
        },
        Expr::Bool(value) => {
            lemma_lex_keywords(rest);
        },
        Expr::Prefix { .. } => lemma_lex_prefix_operation(tree, rest),
        Expr::Infix { .. } => lemma_lex_infix_operation(tree, rest),
        Expr::If { .. } => lemma_lex_if(tree, rest),
        Expr::Function { .. } => lemma_lex_function(tree, rest),
        Expr::Call { .. } => lemma_lex_call(tree, rest),
    }
}

/// The canonical text of a unary operation lexes to its canonical writing.
pub proof fn lemma_lex_prefix_operation(tree: Expr, rest: Seq<char>)
    requires
        lexable_expression(tree),
        tree is Prefix,
        ends_word(rest),
    ensures
        tokens(render_expression(tree) + rest) == written_expression(tree, tokens(rest)),
    decreases tree, 0nat,
{
    let text = render_expression(tree) + rest;
    let operator = tree->Prefix_operator;
    let operand = *tree->operand;
    let closing = ")"@ + rest;
    let inside = render_expression(operand) + closing;
    let at_operator = prefix_symbol(operator) + inside;
    assert(text =~= "("@ + at_operator);
    lemma_lex_marks(at_operator);
    lemma_first_char(operand);
    assert(inside[0] == render_expression(operand)[0]);
    lemma_lex_prefix_symbol(operator, inside);
    lemma_marks_end_words(rest);
    lemma_lex_expression(operand, closing);
    lemma_lex_marks(rest);
}

/// The canonical text of a binary operation lexes to its canonical writing.
pub proof fn lemma_lex_infix_operation(tree: Expr, rest: Seq<char>)
    requires
        lexable_expression(tree),
        tree is Infix,
        ends_word(rest),
    ensures
        tokens(render_expression(tree) + rest) == written_expression(tree, tokens(rest)),
    decreases tree, 0nat,
{
    let text = render_expression(tree) + rest;
    let operator = tree->Infix_operator;
    let left = *tree->left;
    let right = *tree->right;
    let closing = ")"@ + rest;
    let right_side = render_expression(right) + closing;
    let at_operator = " "@ + infix_symbol(operator) + " "@ + right_side;
    let inside = render_expression(left) + at_operator;
    assert(text =~= "("@ + inside);
    lemma_lex_marks(inside);
    assert(at_operator =~= " "@ + (infix_symbol(operator) + " "@ + right_side));
    lemma_marks_end_words(infix_symbol(operator) + " "@ + right_side);
    lemma_lex_expression(left, at_operator);
    lemma_lex_infix_symbol(operator, right_side);
    lemma_marks_end_words(rest);
    lemma_lex_expression(right, closing);
    lemma_lex_marks(rest);
}

/// The canonical text of a conditional lexes to its canonical writing.
pub proof fn lemma_lex_if(tree: Expr, rest: Seq<char>)
    requires
        lexable_expression(tree),
        tree is If,
        ends_word(rest),
    ensures
        tokens(render_expression(tree) + rest) == written_expression(tree, tokens(rest)),
    decreases tree, 0nat,
{
    let text = render_expression(tree) + rest;
    let condition = *tree->condition;
    let consequence = tree->consequence;
    let behind = match tree->alternative {
        Some(block) => " else "@ + (render_block(block) + rest),
        None => rest,
    };
    let at_block = render_block(consequence) + behind;
    let after_condition = ") "@ + at_block;
    let inside = render_expression(condition) + after_condition;
    assert(text =~= "if ("@ + inside);
    lemma_lex_keywords(inside);
    lemma_marks_end_words(at_block);
    lemma_lex_expression(condition, after_condition);
    lemma_lex_spaced_marks(at_block);
    lemma_lex_block(consequence, behind);
    match tree->alternative {
        Some(block) => {
            lemma_lex_keywords(render_block(block) + rest);
            lemma_lex_block(block, rest);
        },
        None => {},
    }
}

/// The canonical text of a function literal lexes to its canonical writing.
pub proof fn lemma_lex_function(tree: Expr, rest: Seq<char>)
    requires
        lexable_expression(tree),
        tree is Function,
        ends_word(rest),
    ensures
        tokens(render_expression(tree) + rest) == written_expression(tree, tokens(rest)),
    decreases tree, 0nat,
{
    let text = render_expression(tree) + rest;
    let parameters = tree->parameters;
    let body = tree->body;
    let at_body = render_block(body) + rest;
    let after_parameters = ") "@ + at_body;
    let inside = render_list(parameters, 0) + after_parameters;
    assert(text =~= "fn("@ + inside);
    lemma_lex_keywords(inside);
    lemma_marks_end_words(at_body);
    lemma_lex_list(parameters, 0, after_parameters);
    lemma_lex_spaced_marks(at_body);
    lemma_lex_block(body, rest);
}

/// The canonical text of a call lexes to its canonical writing.
pub proof fn lemma_lex_call(tree: Expr, rest: Seq<char>)
    requires
        lexable_expression(tree),
        tree is Call,
        ends_word(rest),
    ensures
        tokens(render_expression(tree) + rest) == written_expression(tree, tokens(rest)),
    decreases tree, 0nat,
{
    let text = render_expression(tree) + rest;
    let function = *tree->function;
    let arguments = tree->arguments;
    let closing = ")"@ + rest;
    let inside = render_list(arguments, 0) + closing;
    let opening = "("@ + inside;
    assert(text =~= render_expression(function) + opening);
    lemma_marks_end_words(inside);
    lemma_lex_expression(function, opening);
    lemma_lex_marks(inside);
    lemma_marks_end_words(rest);
    lemma_lex_list(arguments, 0, closing);
    lemma_lex_marks(rest);
}

/// The canonical text of a list of lexable expressions lexes to its
/// canonical writing.
pub proof fn lemma_lex_list(list: Seq<Expr>, from: nat, rest: Seq<char>)
    requires
        lexable_list(list),
        ends_word(rest),
    ensures
        tokens(render_list(list, from) + rest) == written_list(list, from, tokens(rest)),
    decreases list, list.len() - from,
{
    let text = render_list(list, from) + rest;
    if from >= list.len() {
        assert(text =~= rest);
    } else {
        let behind = render_list(list, from + 1) + rest;
        let element = render_expression(list[from as int]) + behind;
        if from + 1 >= list.len() {
            assert(behind =~= rest);
        } else {
            assert(behind =~= ", "@ + (render_expression(list[from as int + 1]) + render_list(
                list,
                from + 2,
            ) + rest));
            lemma_marks_end_words(
                render_expression(list[from as int + 1]) + render_list(list, from + 2) + rest,
            );
        }
        lemma_lex_expression(list[from as int], behind);
        lemma_lex_list(list, from + 1, rest);
        if from == 0 {
            assert(text =~= element);
        } else {
            assert(text =~= ", "@ + element);
            lemma_lex_spaced_marks(element);
        }
    }
}

/// The canonical text of a block of lexable statements lexes to its
/// canonical writing.
pub proof fn lemma_lex_block(list: Seq<Stmt>, rest: Seq<char>)
    requires
        lexable_statements(list),
    ensures
        tokens(render_block(list) + rest) == written_block(list, tokens(rest)),
    decreases list, list.len() + 1,
{
    let closing = "}"@ + rest;
    let inside = render_block_items(list, 0) + closing;
    assert(render_block(list) + rest =~= "{ "@ + inside);
    lemma_lex_spaced_marks(inside);
    lemma_lex_block_items(list, 0, closing);
    lemma_lex_marks(rest);
}

/// The canonical text of the statements of a block lexes to their
/// canonical writing.
pub proof fn lemma_lex_block_items(list: Seq<Stmt>, from: nat, rest: Seq<char>)
    requires
        lexable_statements(list),
    ensures
        tokens(render_block_items(list, from) + rest) == written_statements(
            list,
            from,
            tokens(rest),
        ),
    decreases list, list.len() - from,
{
    let text = render_block_items(list, from) + rest;
    if from >= list.len() {
        assert(text =~= rest);
    } else {
        let behind = render_block_items(list, from + 1) + rest;
        let spaced = " "@ + behind;
        assert(text =~= render_statement(list[from as int]) + spaced);
        lemma_marks_end_words(behind);
        lemma_lex_statement(list[from as int], spaced);
        lemma_lex_marks(behind);
        lemma_lex_block_items(list, from + 1, rest);
    }
}

/// The canonical text of a lexable statement, before a text that ends a
/// word, lexes to the canonical writing of the statement.
pub proof fn lemma_lex_statement(tree: Stmt, rest: Seq<char>)
    requires
        lexable_statement(tree),
        ends_word(rest),
    ensures
        tokens(render_statement(tree) + rest) == written_statement(tree, tokens(rest)),
    decreases tree, 0nat,
{
    let text = render_statement(tree) + rest;
    match tree {
        Stmt::Let { name, value } => {
            let ending = ";"@ + rest;
            let at_value = render_expression(value) + ending;
            let at_assign = " = "@ + at_value;
            let at_name = name + at_assign;
            assert(text =~= "let "@ + at_name);
            lemma_lex_keywords(at_name);
            reveal_strlit(" = ");
            assert(at_assign[0] == ' ');
            lemma_lex_word(name, at_assign);
            lemma_lex_spaced_marks(at_value);
            lemma_marks_end_words(rest);
            lemma_lex_expression(value, ending);
            lemma_lex_marks(rest);
        },
        Stmt::Return { value } => {
            let ending = ";"@ + rest;
            let at_value = render_expression(value) + ending;
            assert(text =~= "return "@ + at_value);
            lemma_lex_keywords(at_value);
            lemma_marks_end_words(rest);
            lemma_lex_expression(value, ending);
            lemma_lex_marks(rest);
        },
        Stmt::Expression(value) => {
            lemma_lex_expression(value, rest);
        },
    }
}

/// The canonical text of the statements of a program from index `from` on
/// lexes to their canonical writing.
pub proof fn lemma_lex_lines(program: Seq<Stmt>, from: nat)
    requires
        lexable_statements(program),
    ensures
        tokens(render_lines(program, from)) == written_statements(program, from, Seq::empty()),
    decreases program.len() - from,
{
    let text = render_lines(program, from);
    if from >= program.len() {
        assert(scan(text).0 is EOF);
    } else {
        let behind = render_lines(program, from + 1);
        let broken = "\n"@ + behind;
        assert(text =~= render_statement(program[from as int]) + broken);
        lemma_marks_end_words(behind);
        lemma_lex_statement(program[from as int], broken);
        lemma_lex_marks(behind);
        lemma_lex_lines(program, from + 1);
    }
}

/// From tree to text to tokens: the canonical text of a lexable program
/// lexes to the canonical writing of the program.
pub proof fn theorem_text_lexes_to_writing(program: Seq<Stmt>)
    requires
        lexable_statements(program),
    ensures
        tokens(render_program(program)) == written_program(program),
{
    lemma_lex_lines(program, 0);
}

/// From tree to text and back: lexing and parsing the canonical text of a
/// program gives the program itself and no error, provided the lexer reads
/// the text as it was written and the parser reads the writing back.
pub proof fn theorem_roundtrip(program: Seq<Stmt>)
    requires
        lexable_statements(program),
        writable_program(program),
    ensures
        parse_program(tokens(render_program(program))) == (Outcome {
            statements: program,
            errors: 0,
        }),
{
    theorem_text_lexes_to_writing(program);
    theorem_read_back(program);
}

} // verus!
