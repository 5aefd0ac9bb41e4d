//! The general properties of the compiler, stated and proved once for all
//! inputs: what each well-formed parameter shape compiles to, that parsing
//! keeps operand order, and that compilation is a pure function of its
//! two strings.

use crate::ast::CompareOp;
use crate::ast::LogicOp;
use crate::ast::SpecNode;
use crate::ast::SpecValue;
use crate::ast::spec_compare_op_of_name;
use crate::ast::spec_logic_op_of_name;
use crate::compile::spec_compile;
use crate::lexer::lemma_next_token_progress;
use crate::lexer::lemma_string_close;
use crate::lexer::num_end;
use crate::lexer::spec_classify_word;
use crate::lexer::spec_lex;
use crate::lexer::spec_lex_from;
use crate::lexer::spec_next_token;
use crate::lexer::string_close;
use crate::lexer::word_end;
use crate::parser::spec_parse;
use crate::parser::spec_parse_group;
use crate::parser::spec_parse_inner_filter;
use crate::parser::spec_parse_items;
use crate::parser::spec_parse_top;
use crate::text::is_digit_char;
use crate::text::is_word_char;
use crate::token::SpecToken;
use vstd::prelude::*;

verus! {

/// A numeric literal the lexer reads in one piece: an optional `-`, then
/// digits and at most one `.`, with at least one character after the sign.
pub open spec fn is_number_literal(s: Seq<char>) -> bool {
    let d: int = if s.len() > 0 && s[0] == '-' {
        1
    } else {
        0
    };
    &&& s.len() > d
    &&& (s[0] == '-' || is_digit_char(s[0]))
    &&& (forall|i: int| d <= i < s.len() ==> is_digit_char(s[i]) || s[i] == '.')
    &&& (forall|i: int, j: int| d <= i < j < s.len() && s[i] == '.' ==> s[j] != '.')
}

/// A quoted string literal: quotes around text that holds no quote.
pub open spec fn is_quoted_atom(s: Seq<char>) -> bool {
    &&& s.len() >= 2
    &&& s[0] == '"'
    &&& s[s.len() - 1] == '"'
    &&& (forall|i: int| 1 <= i < s.len() - 1 ==> s[i] != '"')
}

/// An identifier: a nonempty alphanumeric run that is no operator word and
/// does not start with a digit (a leading digit starts a numeric literal).
pub open spec fn is_ident_atom(s: Seq<char>) -> bool {
    &&& s.len() > 0
    &&& (forall|i: int| 0 <= i < s.len() ==> is_word_char(s[i]))
    &&& !is_digit_char(s[0])
    &&& spec_compare_op_of_name(s) is None
    &&& spec_logic_op_of_name(s) is None
}

/// Any text the lexer turns into exactly one scalar atom.
pub open spec fn is_plain_atom(s: Seq<char>) -> bool {
    is_number_literal(s) || is_quoted_atom(s) || is_ident_atom(s)
}

/// The scalar such a text stands for: the numeric text itself, the quoted
/// text without its quotes, or the identifier.
pub open spec fn spec_atom_value(s: Seq<char>) -> SpecValue {
    if is_number_literal(s) {
        SpecValue::Num(s)
    } else if is_quoted_atom(s) {
        SpecValue::Str(s.subrange(1, s.len() - 1))
    } else {
        SpecValue::Str(s)
    }
}

/// A numeric run of digits and at most one dot runs to the end of the
/// input.
proof fn lemma_num_end_all(s: Seq<char>, p: int, seen_dot: bool)
    requires
        0 <= p <= s.len(),
        forall|i: int| p <= i < s.len() ==> is_digit_char(s[i]) || s[i] == '.',
        seen_dot ==> forall|i: int| p <= i < s.len() ==> s[i] != '.',
        !seen_dot ==> forall|i: int, j: int| p <= i < j < s.len() && s[i] == '.' ==> s[j] != '.',
    ensures
        num_end(s, p, seen_dot) == s.len(),
    decreases s.len() - p,
{
    if p < s.len() {
        if is_digit_char(s[p]) {
            lemma_num_end_all(s, p + 1, seen_dot);
        } else {
            lemma_num_end_all(s, p + 1, true);
        }
    }
}

/// The first quote at or after `p` stands exactly at `q` when no quote
/// stands in between.
proof fn lemma_string_close_at(s: Seq<char>, p: int, q: int)
    requires
        0 <= p <= q < s.len(),
        s[q] == '"',
        forall|i: int| p <= i < q ==> s[i] != '"',
    ensures
        string_close(s, p) == q,
    decreases q - p,
{
    if p < q {
        lemma_string_close_at(s, p + 1, q);
    }
}

/// An alphanumeric run from `p` ends exactly at `q` when everything before
/// `q` is alphanumeric and `q` is the end or not alphanumeric.
proof fn lemma_word_end_until(s: Seq<char>, p: int, q: int)
    requires
        0 <= p <= q <= s.len(),
        forall|i: int| p <= i < q ==> is_word_char(s[i]),
        q == s.len() || !is_word_char(s[q]),
    ensures
        word_end(s, p) == q,
    decreases q - p,
{
    if p < q {
        lemma_word_end_until(s, p + 1, q);
    }
}

/// When everything from `p` to the end is one atom text, the lexer turns
/// that tail into exactly one scalar token.
pub proof fn lemma_lex_tail_atom(s: Seq<char>, p: int)
    requires
        0 <= p < s.len(),
        is_plain_atom(s.subrange(p, s.len() as int)),
    ensures
        spec_lex_from(s, p) == Ok::<_, int>(
            seq![SpecToken::Symbol(spec_atom_value(s.subrange(p, s.len() as int)))],
        ),
{
    let len = s.len() as int;
    let a = s.subrange(p, len);
    assert(a.len() == len - p);
    assert(forall|i: int| p <= i < len ==> a[i - p] == s[i]);
    if is_number_literal(a) {
        let d: int = if s[p] == '-' {
            p + 1
        } else {
            p
        };
        lemma_num_end_all(s, d, false);
        assert(spec_next_token(s, p) == Some(
            (SpecToken::Symbol(SpecValue::Num(s.subrange(p, len))), len),
        ));
        assert(s.subrange(p, len) == a);
    } else if is_quoted_atom(a) {
        assert(s[p] == '"');
        lemma_string_close_at(s, p + 1, len - 1);
        assert(spec_next_token(s, p) == Some(
            (SpecToken::Symbol(SpecValue::Str(s.subrange(p + 1, len - 1))), len),
        ));
        assert(s.subrange(p + 1, len - 1) =~= a.subrange(1, a.len() - 1));
    } else {
        assert(is_word_char(s[p]));
        assert(!is_digit_char(s[p]));
        lemma_word_end_until(s, p, len);
        assert(s.subrange(p, word_end(s, p)) == a);
        assert(spec_next_token(s, p) == Some((SpecToken::Symbol(SpecValue::Str(a)), len)));
    }
    assert(spec_lex_from(s, len) == Ok::<_, int>(Seq::<SpecToken>::empty()));
    assert(seq![SpecToken::Symbol(spec_atom_value(a))] + Seq::<SpecToken>::empty()
        =~= seq![SpecToken::Symbol(spec_atom_value(a))]);
}

/// A bare numeric literal lexes to exactly one numeric scalar holding the
/// same text: re-lexing a lowered number's text reproduces the scalar.
pub proof fn lemma_number_text_roundtrip(t: Seq<char>)
    requires
        is_number_literal(t),
    ensures
        spec_lex(t) == Ok::<_, int>(seq![SpecToken::Symbol(SpecValue::Num(t))]),
{
    assert(t.subrange(0, t.len() as int) =~= t);
    lemma_lex_tail_atom(t, 0);
}

/// Quoting any text that holds no quote lexes back to exactly that text as
/// one string scalar: re-lexing a lowered string reproduces the scalar,
/// whatever characters — dots included — stand inside the quotes.
pub proof fn lemma_quoted_text_roundtrip(t: Seq<char>)
    requires
        forall|i: int| 0 <= i < t.len() ==> t[i] != '"',
    ensures
        spec_lex(seq!['"'] + t + seq!['"']) == Ok::<_, int>(
            seq![SpecToken::Symbol(SpecValue::Str(t))],
        ),
{
    let s = seq!['"'] + t + seq!['"'];
    assert(s.len() == t.len() + 2);
    assert(s[0] == '"');
    assert(s[s.len() - 1] == '"');
    assert(forall|i: int| 1 <= i < s.len() - 1 ==> s[i] == t[i - 1]);
    let a = s.subrange(0, s.len() as int);
    assert(a =~= s);
    assert(is_quoted_atom(a));
    assert(!is_number_literal(a));
    lemma_lex_tail_atom(s, 0);
    assert(spec_atom_value(a) == SpecValue::Str(a.subrange(1, a.len() - 1)));
    assert(a.subrange(1, a.len() - 1) =~= t);
}

/// What a bare-number parameter compiles to: for every key outside the
/// logical table and every numeric-literal value, the result is the
/// field-equality node holding the number.
pub proof fn lemma_compile_bare_number(key: Seq<char>, value: Seq<char>)
    requires
        spec_logic_op_of_name(key) is None,
        is_number_literal(value),
    ensures
        spec_compile(key, value) == Ok::<_, ()>(
            SpecNode::Equals { field: key, value: SpecValue::Num(value) },
        ),
{
    assert(value.subrange(0, value.len() as int) =~= value);
    lemma_lex_tail_atom(value, 0);
    let ts = seq![SpecToken::Symbol(SpecValue::Num(value))];
    assert(spec_parse_top(key, ts, 0) == Ok::<_, ()>(
        (SpecNode::Equals { field: key, value: SpecValue::Num(value) }, 1int),
    ));
}

/// Compilation is a pure function of the key and the value: two results of
/// the same parameter are structurally equal.
pub proof fn lemma_compile_deterministic(
    key: Seq<char>,
    value: Seq<char>,
    n1: SpecNode,
    n2: SpecNode,
)
    requires
        spec_compile(key, value) == Ok::<_, ()>(n1),
        spec_compile(key, value) == Ok::<_, ()>(n2),
    ensures
        n1 == n2,
{
}

/// Leftover tokens are a hard failure: when the top-level production
/// reduces without consuming the whole sequence, the parse as a whole is
/// rejected.
pub proof fn lemma_leftover_tokens_rejected(key: Seq<char>, ts: Seq<SpecToken>)
    requires
        spec_parse_top(key, ts, 0) matches Ok((n, q)) && q != ts.len(),
    ensures
        spec_parse(key, ts, 0) is Err,
{
}

/// The empty group: under a logical key, `()` compiles to that operator
/// with the empty operand list.
pub proof fn lemma_empty_group(key: Seq<char>)
    requires
        spec_logic_op_of_name(key) is Some,
    ensures
        spec_compile(key, "()"@) == Ok::<_, ()>(
            SpecNode::Logical {
                op: spec_logic_op_of_name(key)->Some_0,
                operands: Seq::empty(),
            },
        ),
{
    reveal_strlit("()");
    let s = "()"@;
    assert(s.len() == 2 && s[0] == '(' && s[1] == ')');
    assert(spec_next_token(s, 0) == Some((SpecToken::SpecialChar('('), 1int)));
    assert(spec_next_token(s, 1) == Some((SpecToken::SpecialChar(')'), 2int)));
    assert(spec_lex_from(s, 2) == Ok::<_, int>(Seq::<SpecToken>::empty()));
    let ts = seq![SpecToken::SpecialChar('('), SpecToken::SpecialChar(')')];
    assert(spec_lex_from(s, 1) == Ok::<_, int>(seq![SpecToken::SpecialChar(')')])) by {
        assert(seq![SpecToken::SpecialChar(')')] + Seq::<SpecToken>::empty()
            =~= seq![SpecToken::SpecialChar(')')]);
    }
    assert(spec_lex(s) == Ok::<_, int>(ts)) by {
        assert(seq![SpecToken::SpecialChar('(')] + seq![SpecToken::SpecialChar(')')] =~= ts);
    }
    assert(spec_parse_group(ts, 0) == Ok::<_, ()>((Seq::<SpecNode>::empty(), 2int)));
}

/// The source name of each comparison operator, as the lexer reads it.
pub open spec fn spec_compare_name(op: CompareOp) -> Seq<char> {
    match op {
        CompareOp::Eq => "eq"@,
        CompareOp::Lt => "lt"@,
        CompareOp::Gt => "gt"@,
        CompareOp::Lte => "lte"@,
        CompareOp::Gte => "gte"@,
    }
}

/// The source name of each logical operator, as the lexer reads it.
pub open spec fn spec_logic_name(op: LogicOp) -> Seq<char> {
    match op {
        LogicOp::And => "and"@,
        LogicOp::Or => "or"@,
    }
}

/// The characters of the seven operator words, and that each word maps
/// back to its operator through the fixed tables.
pub proof fn lemma_table_names()
    ensures
        "eq"@ =~= seq!['e', 'q'],
        "lt"@ =~= seq!['l', 't'],
        "gt"@ =~= seq!['g', 't'],
        "lte"@ =~= seq!['l', 't', 'e'],
        "gte"@ =~= seq!['g', 't', 'e'],
        "and"@ =~= seq!['a', 'n', 'd'],
        "or"@ =~= seq!['o', 'r'],
        forall|op: CompareOp| spec_compare_op_of_name(#[trigger] spec_compare_name(op)) == Some(op),
        forall|op: LogicOp| spec_logic_op_of_name(#[trigger] spec_logic_name(op)) == Some(op),
{
    reveal_strlit("eq");
    reveal_strlit("lt");
    reveal_strlit("gt");
    reveal_strlit("lte");
    reveal_strlit("gte");
    reveal_strlit("and");
    reveal_strlit("or");
    assert("eq"@[0] == 'e' && "lt"@[0] == 'l' && "gt"@[0] == 'g');
    assert("lte"@[0] == 'l' && "gte"@[0] == 'g' && "lte"@[1] == 't' && "lte"@[2] == 'e');
    assert("and"@[0] == 'a' && "or"@[0] == 'o');
    assert("eq"@.len() == 2 && "lt"@.len() == 2 && "gt"@.len() == 2);
    assert("lte"@.len() == 3 && "gte"@.len() == 3);
    assert("and"@.len() == 3 && "or"@.len() == 2);
    assert forall|op: CompareOp| spec_compare_op_of_name(#[trigger] spec_compare_name(op))
        == Some(op) by {
        match op {
            CompareOp::Eq => {},
            CompareOp::Lt => {
                assert("lt"@ != "eq"@);
            },
            CompareOp::Gt => {
                assert("gt"@ != "eq"@ && "gt"@ != "lt"@);
            },
            CompareOp::Lte => {
                assert("lte"@ != "eq"@ && "lte"@ != "lt"@ && "lte"@ != "gt"@);
            },
            CompareOp::Gte => {
                assert("gte"@ != "eq"@ && "gte"@ != "lt"@ && "gte"@ != "gt"@ && "gte"@
                    != "lte"@);
            },
        }
    }
    assert forall|op: LogicOp| spec_logic_op_of_name(#[trigger] spec_logic_name(op)) == Some(
        op,
    ) by {
        match op {
            LogicOp::And => {},
            LogicOp::Or => {
                assert("or"@ != "and"@);
            },
        }
    }
}

/// What a comparison parameter compiles to: for every key outside the
/// logical table, every operator name of the comparison table, and every
/// atom text, `name.atom` compiles to the comparison node on the key.
pub proof fn lemma_compile_comparison(key: Seq<char>, name: Seq<char>, atom: Seq<char>)
    requires
        spec_logic_op_of_name(key) is None,
        spec_compare_op_of_name(name) is Some,
        is_plain_atom(atom),
    ensures
        spec_compile(key, name + "."@ + atom) == Ok::<_, ()>(
            SpecNode::Compare {
                field: key,
                op: spec_compare_op_of_name(name)->Some_0,
                value: spec_atom_value(atom),
            },
        ),
{
    lemma_table_names();
    reveal_strlit(".");
    assert("."@ =~= seq!['.']);
    let s = name + "."@ + atom;
    let k = name.len() as int;
    assert(atom.len() > 0);
    assert(s.len() == k + 1 + atom.len());
    assert(forall|i: int| 0 <= i < k ==> s[i] == name[i]);
    assert(s[k] == '.');
    assert(forall|i: int| k + 1 <= i < s.len() ==> s[i] == atom[i - k - 1]);
    assert(forall|i: int| 0 <= i < k ==> is_word_char(s[i])) by {
        if name == "eq"@ {
        } else if name == "lt"@ {
        } else if name == "gt"@ {
        } else if name == "lte"@ {
        } else {
            assert(name == "gte"@);
        }
    }
    lemma_word_end_until(s, 0, k);
    assert(s.subrange(0, k) =~= name);
    assert(spec_next_token(s, 0) == Some((SpecToken::ComparisonOperator(name), k)));
    assert(spec_next_token(s, k) == Some((SpecToken::SpecialChar('.'), k + 1)));
    assert(s.subrange(k + 1, s.len() as int) =~= atom);
    lemma_lex_tail_atom(s, k + 1);
    let v = spec_atom_value(atom);
    assert(spec_lex_from(s, k) == Ok::<_, int>(
        seq![SpecToken::SpecialChar('.'), SpecToken::Symbol(v)],
    )) by {
        assert(seq![SpecToken::SpecialChar('.')] + seq![SpecToken::Symbol(v)]
            =~= seq![SpecToken::SpecialChar('.'), SpecToken::Symbol(v)]);
    }
    let ts = seq![
        SpecToken::ComparisonOperator(name),
        SpecToken::SpecialChar('.'),
        SpecToken::Symbol(v),
    ];
    assert(spec_lex(s) == Ok::<_, int>(ts)) by {
        assert(seq![SpecToken::ComparisonOperator(name)] + seq![
            SpecToken::SpecialChar('.'),
            SpecToken::Symbol(v),
        ] =~= ts);
    }
    assert(spec_parse_top(key, ts, 0) == Ok::<_, ()>(
        (
            SpecNode::Compare { field: key, op: spec_compare_op_of_name(name)->Some_0, value: v },
            3int,
        ),
    ));
}

/// The token text of one filter expression, written back out along the
/// grammar.
pub open spec fn node_tokens(n: SpecNode) -> Seq<SpecToken>
    decreases n, 2int,
{
    match n {
        SpecNode::Equals { field, value } => seq![
            SpecToken::Symbol(SpecValue::Str(field)),
            SpecToken::SpecialChar('.'),
            SpecToken::Symbol(value),
        ],
        SpecNode::Compare { field, op, value } => seq![
            SpecToken::Symbol(SpecValue::Str(field)),
            SpecToken::SpecialChar('.'),
            SpecToken::ComparisonOperator(spec_compare_name(op)),
            SpecToken::SpecialChar('.'),
            SpecToken::Symbol(value),
        ],
        SpecNode::Logical { op, operands } => seq![
            SpecToken::ArrayOp(spec_logic_name(op)),
            SpecToken::SpecialChar('='),
        ] + group_tokens(operands),
    }
}

/// The token text of a parenthesised group of expressions.
pub open spec fn group_tokens(ns: Seq<SpecNode>) -> Seq<SpecToken>
    decreases ns, 1int,
{
    seq![SpecToken::SpecialChar('(')] + items_tokens(ns)
}

/// The token text after the opening parenthesis: the expressions joined by
/// commas, then the closing parenthesis.
pub open spec fn items_tokens(ns: Seq<SpecNode>) -> Seq<SpecToken>
    decreases ns, 0int,
{
    if ns.len() == 0 {
        seq![SpecToken::SpecialChar(')')]
    } else if ns.len() == 1 {
        node_tokens(ns[0]) + seq![SpecToken::SpecialChar(')')]
    } else {
        node_tokens(ns[0]) + seq![SpecToken::SpecialChar(',')] + items_tokens(ns.drop_first())
    }
}

/// An expression's token text is nonempty and starts with an atom or a
/// logical word; a group's starts with its parenthesis.
pub proof fn lemma_node_tokens_shape(n: SpecNode)
    ensures
        node_tokens(n).len() >= 3,
        node_tokens(n)[0] is Symbol || node_tokens(n)[0] is ArrayOp,
    decreases n, 2int,
{
    match n {
        SpecNode::Logical { op, operands } => {
            lemma_group_tokens_shape(operands);
        },
        _ => {},
    }
}

pub proof fn lemma_group_tokens_shape(ns: Seq<SpecNode>)
    ensures
        group_tokens(ns).len() >= 2,
        group_tokens(ns)[0] == SpecToken::SpecialChar('('),
    decreases ns, 1int,
{
    lemma_items_tokens_shape(ns);
}

pub proof fn lemma_items_tokens_shape(ns: Seq<SpecNode>)
    ensures
        items_tokens(ns).len() >= 1,
    decreases ns, 0int,
{
}

/// One element of a matched slice: when the tokens from `p` on hold the
/// written text `sub`, the token at `p + i` is `sub[i]`.
proof fn lemma_slice_index<T>(ts: Seq<T>, p: int, sub: Seq<T>, i: int)
    requires
        0 <= p,
        p + sub.len() <= ts.len(),
        ts.subrange(p, p + sub.len()) == sub,
        0 <= i < sub.len(),
    ensures
        ts[p + i] == sub[i],
{
    assert(ts.subrange(p, p + sub.len())[i] == sub[i]);
}

/// Parsing reads one written-out expression back as exactly that
/// expression, wherever it stands in the token sequence.
pub proof fn lemma_inner_roundtrip(n: SpecNode, ts: Seq<SpecToken>, p: int)
    requires
        0 <= p,
        p + node_tokens(n).len() <= ts.len(),
        ts.subrange(p, p + node_tokens(n).len()) == node_tokens(n),
    ensures
        spec_parse_inner_filter(ts, p) == Ok::<_, ()>((n, p + node_tokens(n).len())),
    decreases n, 2int,
{
    let t = node_tokens(n);
    match n {
        SpecNode::Equals { field, value } => {
            lemma_slice_index(ts, p, t, 0);
            lemma_slice_index(ts, p, t, 1);
            lemma_slice_index(ts, p, t, 2);
            assert(ts[p] == SpecToken::Symbol(SpecValue::Str(field)));
            assert(ts[p + 1] == SpecToken::SpecialChar('.'));
            assert(ts[p + 2] == SpecToken::Symbol(value));
        },
        SpecNode::Compare { field, op, value } => {
            lemma_table_names();
            lemma_slice_index(ts, p, t, 0);
            lemma_slice_index(ts, p, t, 1);
            lemma_slice_index(ts, p, t, 2);
            lemma_slice_index(ts, p, t, 3);
            lemma_slice_index(ts, p, t, 4);
            assert(ts[p] == SpecToken::Symbol(SpecValue::Str(field)));
            assert(ts[p + 1] == SpecToken::SpecialChar('.'));
            assert(ts[p + 2] == SpecToken::ComparisonOperator(spec_compare_name(op)));
            assert(ts[p + 3] == SpecToken::SpecialChar('.'));
            assert(ts[p + 4] == SpecToken::Symbol(value));
        },
        SpecNode::Logical { op, operands } => {
            lemma_table_names();
            lemma_group_tokens_shape(operands);
            let g = group_tokens(operands);
            lemma_slice_index(ts, p, t, 0);
            lemma_slice_index(ts, p, t, 1);
            assert(ts[p] == SpecToken::ArrayOp(spec_logic_name(op)));
            assert(ts[p + 1] == SpecToken::SpecialChar('='));
            assert(ts.subrange(p + 2, p + 2 + g.len()) =~= g) by {
                assert forall|i: int| 0 <= i < g.len() implies ts.subrange(
                    p + 2,
                    p + 2 + g.len(),
                )[i] == g[i] by {
                    lemma_slice_index(ts, p, t, 2 + i);
                    assert(t[2 + i] == g[i]);
                }
            }
            lemma_group_roundtrip(operands, ts, p + 2);
        },
    }
}

/// Parsing reads one written-out group back as exactly its operand list,
/// in order.
pub proof fn lemma_group_roundtrip(ns: Seq<SpecNode>, ts: Seq<SpecToken>, p: int)
    requires
        0 <= p,
        p + group_tokens(ns).len() <= ts.len(),
        ts.subrange(p, p + group_tokens(ns).len()) == group_tokens(ns),
    ensures
        spec_parse_group(ts, p) == Ok::<_, ()>((ns, p + group_tokens(ns).len())),
    decreases ns, 1int,
{
    let g = group_tokens(ns);
    let items = items_tokens(ns);
    lemma_items_tokens_shape(ns);
    lemma_slice_index(ts, p, g, 0);
    assert(ts[p] == SpecToken::SpecialChar('('));
    if ns.len() == 0 {
        lemma_slice_index(ts, p, g, 1);
        assert(ts[p + 1] == SpecToken::SpecialChar(')'));
        assert(Seq::<SpecNode>::empty() =~= ns);
    } else {
        lemma_node_tokens_shape(ns[0]);
        lemma_slice_index(ts, p, g, 1);
        assert(items[0] == node_tokens(ns[0])[0]);
        assert(ts[p + 1] == items[0]);
        assert(!(ts[p + 1] == SpecToken::SpecialChar(')')));
        assert(ts.subrange(p + 1, p + 1 + items.len()) =~= items) by {
            assert forall|i: int| 0 <= i < items.len() implies ts.subrange(
                p + 1,
                p + 1 + items.len(),
            )[i] == items[i] by {
                lemma_slice_index(ts, p, g, 1 + i);
                assert(g[1 + i] == items[i]);
            }
        }
        lemma_items_roundtrip(ns, ts, p + 1);
    }
}

/// Parsing reads written-out comma-joined expressions back as exactly that
/// list, in order.
pub proof fn lemma_items_roundtrip(ns: Seq<SpecNode>, ts: Seq<SpecToken>, p: int)
    requires
        ns.len() >= 1,
        0 <= p,
        p + items_tokens(ns).len() <= ts.len(),
        ts.subrange(p, p + items_tokens(ns).len()) == items_tokens(ns),
    ensures
        spec_parse_items(ts, p) == Ok::<_, ()>((ns, p + items_tokens(ns).len())),
    decreases ns, 0int,
{
    let items = items_tokens(ns);
    let nt = node_tokens(ns[0]);
    lemma_node_tokens_shape(ns[0]);
    assert(ts.subrange(p, p + nt.len()) =~= nt) by {
        assert forall|i: int| 0 <= i < nt.len() implies ts.subrange(p, p + nt.len())[i]
            == nt[i] by {
            lemma_slice_index(ts, p, items, i);
            assert(items[i] == nt[i]);
        }
    }
    lemma_inner_roundtrip(ns[0], ts, p);
    let q = p + nt.len();
    if ns.len() == 1 {
        lemma_slice_index(ts, p, items, nt.len() as int);
        assert(items[nt.len() as int] == SpecToken::SpecialChar(')'));
        assert(ts[q] == SpecToken::SpecialChar(')'));
        assert(seq![ns[0]] =~= ns);
    } else {
        lemma_slice_index(ts, p, items, nt.len() as int);
        assert(items[nt.len() as int] == SpecToken::SpecialChar(','));
        assert(ts[q] == SpecToken::SpecialChar(','));
        let rest = ns.drop_first();
        let rest_items = items_tokens(rest);
        assert(items.len() == nt.len() + 1 + rest_items.len());
        assert(ts.subrange(q + 1, q + 1 + rest_items.len()) =~= rest_items) by {
            assert forall|i: int| 0 <= i < rest_items.len() implies ts.subrange(
                q + 1,
                q + 1 + rest_items.len(),
            )[i] == rest_items[i] by {
                lemma_slice_index(ts, p, items, nt.len() + 1 + i);
                assert(items[nt.len() + 1 + i] == rest_items[i]);
            }
        }
        lemma_items_roundtrip(rest, ts, q + 1);
        assert(seq![ns[0]] + rest =~= ns);
    }
}

/// Order preservation, groups and nested groups: under a logical key, the
/// written-out token text of any operand list — nested logical groups
/// included — parses back to exactly that operator and that list, in the
/// order written.
pub proof fn lemma_group_parse_order(key: Seq<char>, ns: Seq<SpecNode>)
    requires
        (spec_logic_op_of_name(key) is Some),
    ensures
        spec_parse(key, group_tokens(ns), 0) == Ok::<_, ()>(
            SpecNode::Logical { op: spec_logic_op_of_name(key)->Some_0, operands: ns },
        ),
{
    let g = group_tokens(ns);
    lemma_group_tokens_shape(ns);
    assert(g.subrange(0, g.len() as int) =~= g);
    lemma_group_roundtrip(ns, g, 0);
}


/// The lexer turns `s[p .. q]` into exactly `toks` and goes on: what the
/// whole tail from `p` lexes to is `toks` followed by whatever the tail
/// from `q` lexes to, and the errors agree.
pub open spec fn lex_step(s: Seq<char>, p: int, q: int, toks: Seq<SpecToken>) -> bool {
    spec_lex_from(s, p) == (match spec_lex_from(s, q) {
        Ok(ts) => Ok::<_, int>(toks + ts),
        Err(e) => Err::<Seq<SpecToken>, int>(e),
    })
}

/// Two adjacent lexed stretches concatenate.
proof fn lemma_lex_step_trans(
    s: Seq<char>,
    p: int,
    q: int,
    r: int,
    t1: Seq<SpecToken>,
    t2: Seq<SpecToken>,
)
    requires
        lex_step(s, p, q, t1),
        lex_step(s, q, r, t2),
    ensures
        lex_step(s, p, r, t1 + t2),
{
    match spec_lex_from(s, r) {
        Ok(ts) => {
            assert(t1 + (t2 + ts) =~= (t1 + t2) + ts);
        },
        Err(_) => {},
    }
}

/// One accepted token is one lexed stretch.
proof fn lemma_lex_one(s: Seq<char>, p: int, t: SpecToken, q: int)
    requires
        0 <= p < s.len(),
        spec_next_token(s, p) == Some((t, q)),
    ensures
        lex_step(s, p, q, seq![t]),
{
    lemma_next_token_progress(s, p);
}

/// The token at a structural character.
proof fn lemma_token_special(s: Seq<char>, p: int)
    requires
        0 <= p < s.len(),
        crate::lexer::is_special_char(s[p]),
    ensures
        spec_next_token(s, p) == Some((SpecToken::SpecialChar(s[p]), p + 1)),
        lex_step(s, p, p + 1, seq![SpecToken::SpecialChar(s[p])]),
{
    lemma_lex_one(s, p, SpecToken::SpecialChar(s[p]), p + 1);
}

/// The token at an opening quote whose closing quote stands at `q`.
proof fn lemma_token_quoted(s: Seq<char>, p: int, q: int)
    requires
        0 <= p < q < s.len(),
        s[p] == '"',
        s[q] == '"',
        forall|i: int| p + 1 <= i < q ==> s[i] != '"',
    ensures
        spec_next_token(s, p) == Some(
            (SpecToken::Symbol(SpecValue::Str(s.subrange(p + 1, q))), q + 1),
        ),
        lex_step(s, p, q + 1, seq![SpecToken::Symbol(SpecValue::Str(s.subrange(p + 1, q)))]),
{
    lemma_string_close_at(s, p + 1, q);
    lemma_lex_one(s, p, SpecToken::Symbol(SpecValue::Str(s.subrange(p + 1, q))), q + 1);
}

/// The numeric run from `p` ends exactly at `q` when everything before `q`
/// extends it and the character at `q` does not.
proof fn lemma_num_end_until(s: Seq<char>, p: int, q: int, seen_dot: bool)
    requires
        0 <= p <= q <= s.len(),
        forall|i: int| p <= i < q ==> is_digit_char(s[i]) || s[i] == '.',
        seen_dot ==> forall|i: int| p <= i < q ==> s[i] != '.',
        !seen_dot ==> forall|i: int, j: int| p <= i < j < q && s[i] == '.' ==> s[j] != '.',
        q == s.len() || (!is_digit_char(s[q]) && s[q] != '.'),
    ensures
        num_end(s, p, seen_dot) == q,
    decreases q - p,
{
    if p < q {
        if is_digit_char(s[p]) {
            lemma_num_end_until(s, p + 1, q, seen_dot);
        } else {
            lemma_num_end_until(s, p + 1, q, true);
        }
    }
}

/// The token at a numeric literal that fills `s[p .. q]`.
proof fn lemma_token_number(s: Seq<char>, p: int, q: int)
    requires
        0 <= p < q <= s.len(),
        is_number_literal(s.subrange(p, q)),
        q == s.len() || (!is_digit_char(s[q]) && s[q] != '.'),
    ensures
        spec_next_token(s, p) == Some((SpecToken::Symbol(SpecValue::Num(s.subrange(p, q))), q)),
        lex_step(s, p, q, seq![SpecToken::Symbol(SpecValue::Num(s.subrange(p, q)))]),
{
    let a = s.subrange(p, q);
    assert(forall|i: int| p <= i < q ==> a[i - p] == s[i]);
    let d: int = if s[p] == '-' {
        p + 1
    } else {
        p
    };
    lemma_num_end_until(s, d, q, false);
    lemma_lex_one(s, p, SpecToken::Symbol(SpecValue::Num(a)), q);
}

/// The token at an alphanumeric word that fills `s[p .. q]` and does not
/// start with a digit.
proof fn lemma_token_word(s: Seq<char>, p: int, q: int)
    requires
        0 <= p < q <= s.len(),
        forall|i: int| p <= i < q ==> is_word_char(s[i]),
        !is_digit_char(s[p]),
        q == s.len() || !is_word_char(s[q]),
    ensures
        spec_next_token(s, p) == Some((spec_classify_word(s.subrange(p, q)), q)),
        lex_step(s, p, q, seq![spec_classify_word(s.subrange(p, q))]),
{
    lemma_word_end_until(s, p, q);
    lemma_lex_one(s, p, spec_classify_word(s.subrange(p, q)), q);
}


/// No quote stands in the text.
pub open spec fn no_quote(s: Seq<char>) -> bool {
    forall|i: int| 0 <= i < s.len() ==> s[i] != '"'
}

/// A scalar the renderer can write back out: numeric text that is a
/// numeric literal, or string text without quotes.
pub open spec fn renderable_value(v: SpecValue) -> bool {
    match v {
        SpecValue::Num(t) => is_number_literal(t),
        SpecValue::Str(s) => no_quote(s),
    }
}

/// A filter expression the renderer can write back out: quote-free field
/// names and renderable scalars, throughout.
pub open spec fn renderable_node(n: SpecNode) -> bool
    decreases n, 1int,
{
    match n {
        SpecNode::Equals { field, value } => no_quote(field) && renderable_value(value),
        SpecNode::Compare { field, op, value } => no_quote(field) && renderable_value(value),
        SpecNode::Logical { op, operands } => renderable_nodes(operands),
    }
}

pub open spec fn renderable_nodes(ns: Seq<SpecNode>) -> bool
    decreases ns, 0int,
{
    if ns.len() == 0 {
        true
    } else {
        renderable_node(ns[0]) && renderable_nodes(ns.drop_first())
    }
}

/// Text put back in quotes.
pub open spec fn quote_text(s: Seq<char>) -> Seq<char> {
    seq!['"'] + s + seq!['"']
}

/// The source text of one scalar: the numeric text itself, or the string
/// in quotes.
pub open spec fn value_text(v: SpecValue) -> Seq<char> {
    match v {
        SpecValue::Num(t) => t,
        SpecValue::Str(s) => quote_text(s),
    }
}

/// The source text of one filter expression, written back out along the
/// grammar, field names quoted.
pub open spec fn node_text(n: SpecNode) -> Seq<char>
    decreases n, 2int,
{
    match n {
        SpecNode::Equals { field, value } => quote_text(field) + seq!['.'] + value_text(value),
        SpecNode::Compare { field, op, value } => quote_text(field) + seq!['.']
            + spec_compare_name(op) + seq!['.'] + value_text(value),
        SpecNode::Logical { op, operands } => spec_logic_name(op) + seq!['='] + group_text(
            operands,
        ),
    }
}

/// The source text of a parenthesised group.
pub open spec fn group_text(ns: Seq<SpecNode>) -> Seq<char>
    decreases ns, 1int,
{
    seq!['('] + items_text(ns)
}

/// The source text after the opening parenthesis: the expressions joined
/// by commas, then the closing parenthesis.
pub open spec fn items_text(ns: Seq<SpecNode>) -> Seq<char>
    decreases ns, 0int,
{
    if ns.len() == 0 {
        seq![')']
    } else if ns.len() == 1 {
        node_text(ns[0]) + seq![')']
    } else {
        node_text(ns[0]) + seq![','] + items_text(ns.drop_first())
    }
}

/// The written-out text of one scalar lexes to exactly that scalar's
/// token, wherever it stands, as long as no numeric character follows a
/// numeric literal.
proof fn lemma_lex_value_text(v: SpecValue, s: Seq<char>, p: int)
    requires
        renderable_value(v),
        0 <= p,
        p + value_text(v).len() <= s.len(),
        s.subrange(p, p + value_text(v).len()) == value_text(v),
        ({
            let b = p + value_text(v).len();
            b == s.len() || (!is_digit_char(s[b]) && s[b] != '.' && s[b] != '"')
        }),
    ensures
        lex_step(s, p, p + value_text(v).len(), seq![SpecToken::Symbol(v)]),
{
    let t = value_text(v);
    let b = p + t.len();
    match v {
        SpecValue::Num(num) => {
            assert(t.len() > 0);
            assert(s.subrange(p, b) == t);
            lemma_token_number(s, p, b);
        },
        SpecValue::Str(inner) => {
            assert(t.len() == inner.len() + 2);
            lemma_slice_index(s, p, t, 0);
            lemma_slice_index(s, p, t, t.len() - 1);
            assert(t[0] == '"' && t[t.len() - 1] == '"');
            assert(s[p] == '"' && s[b - 1] == '"');
            assert forall|i: int| p + 1 <= i < b - 1 implies #[trigger] s[i] != '"' by {
                lemma_slice_index(s, p, t, i - p);
                assert(t[i - p] == inner[i - p - 1]);
            }
            lemma_token_quoted(s, p, b - 1);
            assert(s.subrange(p + 1, b - 1) =~= inner) by {
                assert forall|i: int| 0 <= i < inner.len() implies s.subrange(p + 1, b - 1)[i]
                    == inner[i] by {
                    lemma_slice_index(s, p, t, i + 1);
                    assert(t[i + 1] == inner[i]);
                }
            }
        },
    }
}

/// The characters of a quoted field and the dot after it, read off the
/// rendered text of an expression whose text starts with them.
proof fn lemma_quoted_field_prefix(s: Seq<char>, p: int, t: Seq<char>, field: Seq<char>)
    requires
        0 <= p,
        p + t.len() <= s.len(),
        s.subrange(p, p + t.len()) == t,
        t.len() >= field.len() + 3,
        forall|i: int| 0 <= i < field.len() + 3 ==> #[trigger] t[i] == (quote_text(field) + seq![
            '.',
        ])[i],
        no_quote(field),
    ensures
        lex_step(
            s,
            p,
            p + field.len() + 3,
            seq![SpecToken::Symbol(SpecValue::Str(field)), SpecToken::SpecialChar('.')],
        ),
{
    let flen = field.len() as int;
    lemma_slice_index(s, p, t, 0);
    lemma_slice_index(s, p, t, flen + 1);
    lemma_slice_index(s, p, t, flen + 2);
    assert(t[0] == '"' && t[flen + 1] == '"' && t[flen + 2] == '.');
    assert(s[p] == '"' && s[p + flen + 1] == '"' && s[p + flen + 2] == '.');
    assert forall|i: int| p + 1 <= i < p + flen + 1 implies #[trigger] s[i] != '"' by {
        lemma_slice_index(s, p, t, i - p);
        assert(t[i - p] == field[i - p - 1]);
    }
    lemma_token_quoted(s, p, p + flen + 1);
    assert(s.subrange(p + 1, p + flen + 1) =~= field) by {
        assert forall|i: int| 0 <= i < flen implies s.subrange(p + 1, p + flen + 1)[i]
            == field[i] by {
            lemma_slice_index(s, p, t, i + 1);
            assert(t[i + 1] == field[i]);
        }
    }
    lemma_token_special(s, p + flen + 2);
    lemma_lex_step_trans(
        s,
        p,
        p + flen + 2,
        p + flen + 3,
        seq![SpecToken::Symbol(SpecValue::Str(field))],
        seq![SpecToken::SpecialChar('.')],
    );
    assert(seq![SpecToken::Symbol(SpecValue::Str(field))] + seq![SpecToken::SpecialChar('.')]
        =~= seq![SpecToken::Symbol(SpecValue::Str(field)), SpecToken::SpecialChar('.')]);
}

/// The written-out text of one filter expression lexes to exactly its
/// token text, wherever it stands, as long as a separator or the end of
/// the input follows.
#[verifier::rlimit(60)]
proof fn lemma_lex_node_text(n: SpecNode, s: Seq<char>, p: int)
    requires
        renderable_node(n),
        0 <= p,
        p + node_text(n).len() <= s.len(),
        s.subrange(p, p + node_text(n).len()) == node_text(n),
        ({
            let b = p + node_text(n).len();
            b == s.len() || s[b] == ',' || s[b] == ')'
        }),
    ensures
        lex_step(s, p, p + node_text(n).len(), node_tokens(n)),
    decreases n, 2int,
{
    let t = node_text(n);
    let b = p + t.len();
    match n {
        SpecNode::Equals { field, value } => {
            let flen = field.len() as int;
            let vt = value_text(value);
            assert(t.len() == flen + 3 + vt.len());
            assert(forall|i: int| 0 <= i < flen + 3 ==> #[trigger] t[i] == (quote_text(field)
                + seq!['.'])[i]);
            lemma_quoted_field_prefix(s, p, t, field);
            let vp = p + flen + 3;
            assert(s.subrange(vp, vp + vt.len()) =~= vt) by {
                assert forall|i: int| 0 <= i < vt.len() implies s.subrange(vp, vp + vt.len())[i]
                    == vt[i] by {
                    lemma_slice_index(s, p, t, flen + 3 + i);
                    assert(t[flen + 3 + i] == vt[i]);
                }
            }
            lemma_lex_value_text(value, s, vp);
            lemma_lex_step_trans(
                s,
                p,
                vp,
                b,
                seq![SpecToken::Symbol(SpecValue::Str(field)), SpecToken::SpecialChar('.')],
                seq![SpecToken::Symbol(value)],
            );
            assert(seq![SpecToken::Symbol(SpecValue::Str(field)), SpecToken::SpecialChar('.')]
                + seq![SpecToken::Symbol(value)] =~= node_tokens(n));
        },
        SpecNode::Compare { field, op, value } => {
            lemma_table_names();
            let flen = field.len() as int;
            let name = spec_compare_name(op);
            let k = name.len() as int;
            let vt = value_text(value);
            assert(t.len() == flen + 3 + k + 1 + vt.len());
            assert(forall|i: int| 0 <= i < flen + 3 ==> #[trigger] t[i] == (quote_text(field)
                + seq!['.'])[i]);
            lemma_quoted_field_prefix(s, p, t, field);
            let np = p + flen + 3;
            assert forall|i: int| np <= i < np + k implies is_word_char(#[trigger] s[i])
                && !is_digit_char(s[i]) && s[i] == name[i - np] by {
                lemma_slice_index(s, p, t, i - p);
                assert(t[i - p] == name[i - p - flen - 3]);
                match op {
                    CompareOp::Eq => {},
                    CompareOp::Lt => {},
                    CompareOp::Gt => {},
                    CompareOp::Lte => {},
                    CompareOp::Gte => {},
                }
            }
            lemma_slice_index(s, p, t, flen + 3 + k);
            assert(t[flen + 3 + k] == '.');
            assert(s[np + k] == '.');
            lemma_token_word(s, np, np + k);
            assert(s.subrange(np, np + k) =~= name);
            assert(spec_classify_word(name) == SpecToken::ComparisonOperator(name));
            lemma_token_special(s, np + k);
            let vp = np + k + 1;
            assert(s.subrange(vp, vp + vt.len()) =~= vt) by {
                assert forall|i: int| 0 <= i < vt.len() implies s.subrange(vp, vp + vt.len())[i]
                    == vt[i] by {
                    lemma_slice_index(s, p, t, flen + 3 + k + 1 + i);
                    assert(t[flen + 3 + k + 1 + i] == vt[i]);
                }
            }
            lemma_lex_value_text(value, s, vp);
            lemma_lex_step_trans(
                s,
                p,
                np,
                np + k,
                seq![SpecToken::Symbol(SpecValue::Str(field)), SpecToken::SpecialChar('.')],
                seq![SpecToken::ComparisonOperator(name)],
            );
            lemma_lex_step_trans(
                s,
                p,
                np + k,
                vp,
                seq![SpecToken::Symbol(SpecValue::Str(field)), SpecToken::SpecialChar('.')]
                    + seq![SpecToken::ComparisonOperator(name)],
                seq![SpecToken::SpecialChar('.')],
            );
            lemma_lex_step_trans(
                s,
                p,
                vp,
                b,
                (seq![SpecToken::Symbol(SpecValue::Str(field)), SpecToken::SpecialChar('.')]
                    + seq![SpecToken::ComparisonOperator(name)]) + seq![
                    SpecToken::SpecialChar('.'),
                ],
                seq![SpecToken::Symbol(value)],
            );
            assert(((seq![SpecToken::Symbol(SpecValue::Str(field)), SpecToken::SpecialChar('.')]
                + seq![SpecToken::ComparisonOperator(name)]) + seq![SpecToken::SpecialChar('.')])
                + seq![SpecToken::Symbol(value)] =~= node_tokens(n));
        },
        SpecNode::Logical { op, operands } => {
            lemma_table_names();
            let name = spec_logic_name(op);
            let k = name.len() as int;
            let gt = group_text(operands);
            assert(t.len() == k + 1 + gt.len());
            assert forall|i: int| p <= i < p + k implies is_word_char(#[trigger] s[i])
                && !is_digit_char(s[i]) && s[i] == name[i - p] by {
                lemma_slice_index(s, p, t, i - p);
                assert(t[i - p] == name[i - p]);
                match op {
                    LogicOp::And => {},
                    LogicOp::Or => {},
                }
            }
            lemma_slice_index(s, p, t, k);
            assert(t[k] == '=');
            assert(s[p + k] == '=');
            lemma_token_word(s, p, p + k);
            assert(s.subrange(p, p + k) =~= name);
            assert(spec_compare_op_of_name(name) is None) by {
                match op {
                    LogicOp::And => {
                        assert("and"@ != "eq"@ && "and"@ != "lt"@ && "and"@ != "gt"@ && "and"@
                            != "lte"@ && "and"@ != "gte"@);
                    },
                    LogicOp::Or => {
                        assert("or"@ != "eq"@ && "or"@ != "lt"@ && "or"@ != "gt"@ && "or"@
                            != "lte"@ && "or"@ != "gte"@);
                    },
                }
            }
            assert(spec_classify_word(name) == SpecToken::ArrayOp(name));
            lemma_token_special(s, p + k);
            let gp = p + k + 1;
            assert(s.subrange(gp, gp + gt.len()) =~= gt) by {
                assert forall|i: int| 0 <= i < gt.len() implies s.subrange(gp, gp + gt.len())[i]
                    == gt[i] by {
                    lemma_slice_index(s, p, t, k + 1 + i);
                    assert(t[k + 1 + i] == gt[i]);
                }
            }
            lemma_lex_group_text(operands, s, gp);
            lemma_lex_step_trans(
                s,
                p,
                p + k,
                gp,
                seq![SpecToken::ArrayOp(name)],
                seq![SpecToken::SpecialChar('=')],
            );
            lemma_lex_step_trans(
                s,
                p,
                gp,
                b,
                seq![SpecToken::ArrayOp(name)] + seq![SpecToken::SpecialChar('=')],
                group_tokens(operands),
            );
            assert((seq![SpecToken::ArrayOp(name)] + seq![SpecToken::SpecialChar('=')])
                + group_tokens(operands) =~= node_tokens(n));
        },
    }
}

/// The written-out text of a group lexes to exactly its token text.
proof fn lemma_lex_group_text(ns: Seq<SpecNode>, s: Seq<char>, p: int)
    requires
        renderable_nodes(ns),
        0 <= p,
        p + group_text(ns).len() <= s.len(),
        s.subrange(p, p + group_text(ns).len()) == group_text(ns),
    ensures
        lex_step(s, p, p + group_text(ns).len(), group_tokens(ns)),
    decreases ns, 1int,
{
    let t = group_text(ns);
    let it = items_text(ns);
    lemma_slice_index(s, p, t, 0);
    assert(t[0] == '(');
    assert(s[p] == '(');
    lemma_token_special(s, p);
    assert(s.subrange(p + 1, p + 1 + it.len()) =~= it) by {
        assert forall|i: int| 0 <= i < it.len() implies s.subrange(p + 1, p + 1 + it.len())[i]
            == it[i] by {
            lemma_slice_index(s, p, t, 1 + i);
            assert(t[1 + i] == it[i]);
        }
    }
    lemma_lex_items_text(ns, s, p + 1);
    lemma_lex_step_trans(
        s,
        p,
        p + 1,
        p + t.len(),
        seq![SpecToken::SpecialChar('(')],
        items_tokens(ns),
    );
    assert(seq![SpecToken::SpecialChar('(')] + items_tokens(ns) =~= group_tokens(ns));
}

/// The written-out text after the opening parenthesis lexes to exactly its
/// token text.
proof fn lemma_lex_items_text(ns: Seq<SpecNode>, s: Seq<char>, p: int)
    requires
        renderable_nodes(ns),
        0 <= p,
        p + items_text(ns).len() <= s.len(),
        s.subrange(p, p + items_text(ns).len()) == items_text(ns),
    ensures
        lex_step(s, p, p + items_text(ns).len(), items_tokens(ns)),
    decreases ns, 0int,
{
    let t = items_text(ns);
    if ns.len() == 0 {
        lemma_slice_index(s, p, t, 0);
        assert(t[0] == ')');
        assert(s[p] == ')');
        lemma_token_special(s, p);
        assert(seq![SpecToken::SpecialChar(')')] =~= items_tokens(ns));
    } else {
        let nt = node_text(ns[0]);
        let sep = p + nt.len();
        assert(s.subrange(p, sep) =~= nt) by {
            assert forall|i: int| 0 <= i < nt.len() implies s.subrange(p, sep)[i] == nt[i] by {
                lemma_slice_index(s, p, t, i);
                assert(t[i] == nt[i]);
            }
        }
        lemma_slice_index(s, p, t, nt.len() as int);
        if ns.len() == 1 {
            assert(t[nt.len() as int] == ')');
            assert(s[sep] == ')');
            lemma_lex_node_text(ns[0], s, p);
            lemma_token_special(s, sep);
            lemma_lex_step_trans(
                s,
                p,
                sep,
                sep + 1,
                node_tokens(ns[0]),
                seq![SpecToken::SpecialChar(')')],
            );
            assert(node_tokens(ns[0]) + seq![SpecToken::SpecialChar(')')] =~= items_tokens(ns));
        } else {
            assert(t[nt.len() as int] == ',');
            assert(s[sep] == ',');
            lemma_lex_node_text(ns[0], s, p);
            lemma_token_special(s, sep);
            let rest = ns.drop_first();
            let rt = items_text(rest);
            assert(s.subrange(sep + 1, sep + 1 + rt.len()) =~= rt) by {
                assert forall|i: int| 0 <= i < rt.len() implies s.subrange(
                    sep + 1,
                    sep + 1 + rt.len(),
                )[i] == rt[i] by {
                    lemma_slice_index(s, p, t, nt.len() + 1 + i);
                    assert(t[nt.len() + 1 + i] == rt[i]);
                }
            }
            lemma_lex_items_text(rest, s, sep + 1);
            lemma_lex_step_trans(
                s,
                p,
                sep,
                sep + 1,
                node_tokens(ns[0]),
                seq![SpecToken::SpecialChar(',')],
            );
            lemma_lex_step_trans(
                s,
                p,
                sep + 1,
                p + t.len(),
                node_tokens(ns[0]) + seq![SpecToken::SpecialChar(',')],
                items_tokens(rest),
            );
            assert((node_tokens(ns[0]) + seq![SpecToken::SpecialChar(',')]) + items_tokens(rest)
                =~= items_tokens(ns));
        }
    }
}

/// The full statement of group compilation, at the level of the source
/// strings: under a logical key, the written-out text of any renderable
/// operand list — nested logical groups included — compiles back to
/// exactly that operator and that list, in the order written.
pub proof fn lemma_compile_group_text(key: Seq<char>, ns: Seq<SpecNode>)
    requires
        (spec_logic_op_of_name(key) is Some),
        renderable_nodes(ns),
    ensures
        spec_compile(key, group_text(ns)) == Ok::<_, ()>(
            SpecNode::Logical { op: spec_logic_op_of_name(key)->Some_0, operands: ns },
        ),
{
    let g = group_text(ns);
    assert(g.subrange(0, g.len() as int) =~= g);
    lemma_lex_group_text(ns, g, 0);
    assert(spec_lex_from(g, g.len() as int) == Ok::<_, int>(Seq::<SpecToken>::empty()));
    assert(spec_lex(g) == Ok::<_, int>(group_tokens(ns))) by {
        assert(group_tokens(ns) + Seq::<SpecToken>::empty() =~= group_tokens(ns));
    }
    lemma_group_parse_order(key, ns);
}

} // verus!
