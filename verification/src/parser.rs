//! The parser: it consumes a token sequence under a top-level key and
//! produces one filter expression, with the lowering to the document
//! store's operator keys built into the productions.

use crate::ast::CompareOp;
use crate::ast::FilterNode;
use crate::ast::LogicOp;
use crate::ast::SpecNode;
use crate::ast::Value;
use crate::ast::lemma_spec_nodes_of;
use crate::ast::spec_compare_key;
use crate::ast::spec_compare_op_of_name;
use crate::ast::spec_logic_op_of_name;
use crate::ast::spec_node_of;
use crate::ast::spec_nodes_of;
use crate::token::LexItem;
use crate::token::SpecToken;
use crate::token::spec_tokens_of;
use vstd::prelude::*;

verus! {

/// The parser's rejection: the token sequence matched no production at
/// `position`; `remaining` holds the unconsumed tail, to aid debugging.
#[derive(Debug)]
pub struct ParseError {
    pub position: usize,
    pub remaining: Vec<LexItem>,
}

/// The defensive rejection of the operator-name tables: the name stood
/// outside the fixed table.
#[derive(Debug)]
pub struct UnknownOperator {
    pub name: String,
}

/// One inner filter of a group, starting at `p`:
/// either `LogicOp '=' Group`, `Field '.' CompareOp '.' Value`, or
/// `Field '.' Value`, each with the position right after it.
pub open spec fn spec_parse_inner_filter(ts: Seq<SpecToken>, p: int) -> Result<(SpecNode, int), ()>
    decreases ts.len() - p, 1int,
        when 0 <= p <= ts.len()
{
    if p + 1 < ts.len() {
        match (ts[p], ts[p + 1]) {
            (SpecToken::ArrayOp(name), SpecToken::SpecialChar('=')) => {
                match spec_logic_op_of_name(name) {
                    Some(op) => match spec_parse_group(ts, p + 2) {
                        Ok((operands, q)) => Ok((SpecNode::Logical { op, operands }, q)),
                        Err(e) => Err(e),
                    },
                    None => Err(()),
                }
            },
            (SpecToken::Symbol(crate::ast::SpecValue::Str(field)), SpecToken::SpecialChar('.')) => {
                if p + 2 < ts.len() {
                    match ts[p + 2] {
                        SpecToken::ComparisonOperator(name) => {
                            if p + 4 < ts.len() {
                                match (ts[p + 3], ts[p + 4]) {
                                    (SpecToken::SpecialChar('.'), SpecToken::Symbol(v)) => {
                                        match spec_compare_op_of_name(name) {
                                            Some(op) => Ok(
                                                (
                                                    SpecNode::Compare { field, op, value: v },
                                                    p + 5,
                                                ),
                                            ),
                                            None => Err(()),
                                        }
                                    },
                                    _ => Err(()),
                                }
                            } else {
                                Err(())
                            }
                        },
                        SpecToken::Symbol(v) => Ok((SpecNode::Equals { field, value: v }, p + 3)),
                        _ => Err(()),
                    }
                } else {
                    Err(())
                }
            },
            _ => Err(()),
        }
    } else {
        Err(())
    }
}

/// A parenthesised group starting at `p`: `'(' ')'` gives the empty operand
/// list, otherwise `'(' InnerFilter (',' InnerFilter)* ')'`.
pub open spec fn spec_parse_group(ts: Seq<SpecToken>, p: int) -> Result<(Seq<SpecNode>, int), ()>
    decreases ts.len() - p, 0int,
        when 0 <= p <= ts.len()
{
    if p < ts.len() && ts[p] == SpecToken::SpecialChar('(') {
        if p + 1 < ts.len() && ts[p + 1] == SpecToken::SpecialChar(')') {
            Ok((Seq::empty(), p + 2))
        } else {
            spec_parse_items(ts, p + 1)
        }
    } else {
        Err(())
    }
}

/// One or more inner filters separated by `,` and closed by `)`, starting
/// at `p`.
pub open spec fn spec_parse_items(ts: Seq<SpecToken>, p: int) -> Result<(Seq<SpecNode>, int), ()>
    decreases ts.len() - p, 2int,
        when 0 <= p <= ts.len()
{
    match spec_parse_inner_filter(ts, p) {
        Ok((n, q)) => if p < q <= ts.len() {
            if q < ts.len() && ts[q] == SpecToken::SpecialChar(',') {
                match spec_parse_items(ts, q + 1) {
                    Ok((rest, r)) => Ok((seq![n] + rest, r)),
                    Err(e) => Err(e),
                }
            } else if q < ts.len() && ts[q] == SpecToken::SpecialChar(')') {
                Ok((seq![n], q + 1))
            } else {
                Err(())
            }
        } else {
            Err(())
        },
        Err(e) => Err(e),
    }
}

/// The top-level production under the out-of-band key: a logical group when
/// the key is an operator of the logical table, else a bare value or a
/// `CompareOp '.' Value` comparison on the key as field.
pub open spec fn spec_parse_top(key: Seq<char>, ts: Seq<SpecToken>, p: int) -> Result<
    (SpecNode, int),
    (),
> {
    match spec_logic_op_of_name(key) {
        Some(op) => match spec_parse_group(ts, p) {
            Ok((operands, q)) => Ok((SpecNode::Logical { op, operands }, q)),
            Err(e) => Err(e),
        },
        None => if p < ts.len() {
            match ts[p] {
                SpecToken::Symbol(v) => Ok((SpecNode::Equals { field: key, value: v }, p + 1)),
                SpecToken::ComparisonOperator(name) => {
                    if p + 2 < ts.len() {
                        match (ts[p + 1], ts[p + 2]) {
                            (SpecToken::SpecialChar('.'), SpecToken::Symbol(v)) => {
                                match spec_compare_op_of_name(name) {
                                    Some(op) => Ok(
                                        (SpecNode::Compare { field: key, op, value: v }, p + 3),
                                    ),
                                    None => Err(()),
                                }
                            },
                            _ => Err(()),
                        }
                    } else {
                        Err(())
                    }
                },
                _ => Err(()),
            }
        } else {
            Err(())
        },
    }
}

/// The whole parse: the top-level production must consume every token;
/// leftover tokens are a hard failure.
pub open spec fn spec_parse(key: Seq<char>, ts: Seq<SpecToken>, p: int) -> Result<SpecNode, ()> {
    match spec_parse_top(key, ts, p) {
        Ok((n, q)) => if q == ts.len() {
            Ok(n)
        } else {
            Err(())
        },
        Err(e) => Err(e),
    }
}

/// An accepted inner filter always consumes at least one token.
pub proof fn lemma_inner_filter_progress(ts: Seq<SpecToken>, p: int)
    requires
        0 <= p <= ts.len(),
    ensures
        match spec_parse_inner_filter(ts, p) {
            Ok((n, q)) => p < q <= ts.len(),
            Err(e) => true,
        },
    decreases ts.len() - p, 1int,
{
    if p + 1 < ts.len() {
        match (ts[p], ts[p + 1]) {
            (SpecToken::ArrayOp(name), SpecToken::SpecialChar('=')) => {
                lemma_group_progress(ts, p + 2);
            },
            _ => {},
        }
    }
}

/// An accepted group always consumes at least one token.
pub proof fn lemma_group_progress(ts: Seq<SpecToken>, p: int)
    requires
        0 <= p <= ts.len(),
    ensures
        match spec_parse_group(ts, p) {
            Ok((operands, q)) => p < q <= ts.len(),
            Err(e) => true,
        },
    decreases ts.len() - p, 0int,
{
    if p < ts.len() && ts[p] == SpecToken::SpecialChar('(') {
        if !(p + 1 < ts.len() && ts[p + 1] == SpecToken::SpecialChar(')')) {
            lemma_items_progress(ts, p + 1);
        }
    }
}

/// An accepted item list always consumes at least one token.
pub proof fn lemma_items_progress(ts: Seq<SpecToken>, p: int)
    requires
        0 <= p <= ts.len(),
    ensures
        match spec_parse_items(ts, p) {
            Ok((operands, q)) => p < q <= ts.len(),
            Err(e) => true,
        },
    decreases ts.len() - p, 2int,
{
    lemma_inner_filter_progress(ts, p);
    match spec_parse_inner_filter(ts, p) {
        Ok((n, q)) => {
            if p < q <= ts.len() && q < ts.len() && ts[q] == SpecToken::SpecialChar(',') {
                lemma_items_progress(ts, q + 1);
            }
        },
        Err(e) => {},
    }
}

/// The parser: a cursor over the token sequence of one expression.
pub struct Parser {
    tokens: Vec<LexItem>,
    position: usize,
}

impl Parser {
    /// The tokens the parser was given.
    pub closed spec fn spec_raw(&self) -> Seq<LexItem> {
        self.tokens@
    }

    /// The models of the tokens the parser was given.
    pub open spec fn spec_tokens(&self) -> Seq<SpecToken> {
        spec_tokens_of(self.spec_raw())
    }

    /// The cursor: how many tokens have been consumed.
    pub closed spec fn spec_position(&self) -> int {
        self.position as int
    }

    /// The cursor never stands past the end of the tokens.
    pub open spec fn wf(&self) -> bool {
        self.spec_position() <= self.spec_raw().len()
    }

    /// Makes a parser over `tokens`, with the cursor at the start.
    pub fn new(tokens: Vec<LexItem>) -> (r: Parser)
        ensures
            r.wf(),
            r.spec_raw() == tokens@,
            r.spec_position() == 0,
    {
        Parser { tokens, position: 0 }
    }

    /// The token under the cursor, if any; the cursor does not move.
    fn peek(&self) -> (r: Option<&LexItem>)
        ensures
            match r {
                Some(t) => self.spec_position() < self.spec_raw().len() && *t
                    == self.spec_raw()[self.spec_position()],
                None => self.spec_position() >= self.spec_raw().len(),
            },
    {
        if self.position < self.tokens.len() {
            Some(&self.tokens[self.position])
        } else {
            None
        }
    }

    /// Takes the token under the cursor and advances past it; at the end of
    /// the tokens it returns `None` and the cursor stays.
    fn advance(&mut self) -> (r: Option<LexItem>)
        ensures
            final(self).spec_raw() == old(self).spec_raw(),
            match r {
                Some(t) => old(self).spec_position() < old(self).spec_raw().len() && t == old(self).spec_raw()[old(self).spec_position()] && final(self).spec_position() == old(self).spec_position() + 1,
                None => old(self).spec_position() >= old(self).spec_raw().len() && final(self).spec_position() == old(self).spec_position(),
            },
    {
        if self.position < self.tokens.len() {
            let t = self.tokens[self.position].clone();
            self.position += 1;
            Some(t)
        } else {
            None
        }
    }

    /// The uniform rejection at the current cursor: the position, and a copy
    /// of the unconsumed token tail.
    fn parse_error(&self) -> (e: ParseError)
        requires
            self.wf(),
        ensures
            e.position as int == self.spec_position(),
            e.remaining@ == self.spec_raw().subrange(
                self.spec_position(),
                self.spec_raw().len() as int,
            ),
    {
        let mut remaining: Vec<LexItem> = Vec::new();
        let mut i: usize = self.position;
        while i < self.tokens.len()
            invariant
                self.position <= i <= self.spec_raw().len(),
                remaining@ == self.spec_raw().subrange(self.spec_position(), i as int),
            decreases self.spec_raw().len() - i,
        {
            let t = self.tokens[i].clone();
            remaining.push(t);
            i += 1;
            proof {
                assert(self.spec_raw().subrange(self.spec_position(), i - 1).push(
                    self.spec_raw()[i - 1],
                ) =~= self.spec_raw().subrange(self.spec_position(), i as int));
            }
        }
        proof {
            assert(remaining@ =~= self.spec_raw().subrange(
                self.spec_position(),
                self.spec_raw().len() as int,
            ));
        }
        ParseError { position: self.position, remaining }
    }

    /// A rejection report is well formed: its position stands inside the
    /// tokens and its tail is the unconsumed suffix from that position.
    pub open spec fn spec_error_wf(e: &ParseError, raw: Seq<LexItem>) -> bool {
        &&& e.position as int <= raw.len()
        &&& e.remaining@ == raw.subrange(e.position as int, raw.len() as int)
    }

    /// Maps a comparison-operator name to the operator key it lowers to;
    /// a name outside the fixed table fails closed.
    pub fn operator_to_bson_key(operator: &String) -> (r: Result<String, UnknownOperator>)
        ensures
            match r {
                Ok(k) => spec_compare_op_of_name(operator@) matches Some(op) && k@
                    == spec_compare_key(op),
                Err(e) => spec_compare_op_of_name(operator@) is None && e.name@ == operator@,
            },
    {
        match CompareOp::of_name(operator) {
            Some(op) => Ok(op.bson_key()),
            None => Err(UnknownOperator { name: operator.clone() }),
        }
    }

    /// Parses one inner filter of a group.
    fn parse_inner_filter(&mut self) -> (r: Result<FilterNode, ParseError>)
        requires
            old(self).wf(),
        ensures
            final(self).wf(),
            final(self).spec_raw() == old(self).spec_raw(),
            match r {
                Ok(n) => spec_parse_inner_filter(old(self).spec_tokens(), old(self).spec_position())
                    == Ok::<_, ()>((n@, final(self).spec_position())),
                Err(e) => spec_parse_inner_filter(
                    old(self).spec_tokens(),
                    old(self).spec_position(),
                ) is Err && Self::spec_error_wf(&e, old(self).spec_raw()),
            },
        decreases self.spec_raw().len() - self.spec_position(), 1int,
    {
        let first_token = self.advance();
        let second_token = self.advance();
        match (first_token, second_token) {
            (Some(LexItem::ArrayOp(name)), Some(LexItem::SpecialChar('='))) => {
                match LogicOp::of_name(&name) {
                    Some(op) => match self.parse_inner_filters() {
                        Ok(operands) => Ok(FilterNode::Logical { op, operands }),
                        Err(e) => Err(e),
                    },
                    None => Err(self.parse_error()),
                }
            },
            (Some(LexItem::Symbol(Value::Str(field_name))), Some(LexItem::SpecialChar('.'))) => {
                match self.advance() {
                    // Case Field.ComparisonOp.Value
                    Some(LexItem::ComparisonOperator(operator)) => {
                        match CompareOp::of_name(&operator) {
                            Some(op) => match (self.advance(), self.advance()) {
                                (
                                    Some(LexItem::SpecialChar('.')),
                                    Some(LexItem::Symbol(value)),
                                ) => Ok(FilterNode::Compare { field: field_name, op, value }),
                                _ => Err(self.parse_error()),
                            },
                            None => Err(self.parse_error()),
                        }
                    },
                    // Case Field.Value
                    Some(LexItem::Symbol(val)) => Ok(
                        FilterNode::Equals { field: field_name, value: val },
                    ),
                    _ => Err(self.parse_error()),
                }
            },
            _ => Err(self.parse_error()),
        }
    }

    /// Parses a parenthesised group of inner filters, the parentheses
    /// included; `()` is the empty operand list.
    fn parse_inner_filters(&mut self) -> (r: Result<Vec<FilterNode>, ParseError>)
        requires
            old(self).wf(),
        ensures
            final(self).wf(),
            final(self).spec_raw() == old(self).spec_raw(),
            match r {
                Ok(v) => spec_parse_group(old(self).spec_tokens(), old(self).spec_position())
                    == Ok::<_, ()>((spec_nodes_of(v@), final(self).spec_position())),
                Err(e) => spec_parse_group(old(self).spec_tokens(), old(self).spec_position())
                    is Err && Self::spec_error_wf(&e, old(self).spec_raw()),
            },
        decreases self.spec_raw().len() - self.spec_position(), 0int,
    {
        match self.peek() {
            Some(LexItem::SpecialChar('(')) => {
                self.advance();
                match self.peek() {
                    Some(LexItem::SpecialChar(')')) => {
                        self.advance();
                        Ok(Vec::new())
                    },
                    _ => self.parse_items(),
                }
            },
            _ => Err(self.parse_error()),
        }
    }

    /// Parses one or more inner filters separated by `,` and closed by `)`.
    fn parse_items(&mut self) -> (r: Result<Vec<FilterNode>, ParseError>)
        requires
            old(self).wf(),
        ensures
            final(self).wf(),
            final(self).spec_raw() == old(self).spec_raw(),
            match r {
                Ok(v) => spec_parse_items(old(self).spec_tokens(), old(self).spec_position())
                    == Ok::<_, ()>((spec_nodes_of(v@), final(self).spec_position())),
                Err(e) => spec_parse_items(old(self).spec_tokens(), old(self).spec_position())
                    is Err && Self::spec_error_wf(&e, old(self).spec_raw()),
            },
        decreases self.spec_raw().len() - self.spec_position(), 2int,
    {
        proof {
            lemma_inner_filter_progress(self.spec_tokens(), self.spec_position());
        }
        match self.parse_inner_filter() {
            Ok(n) => {
                match self.advance() {
                    Some(LexItem::SpecialChar(',')) => {
                        match self.parse_items() {
                            Ok(rest) => {
                                let ghost r0 = rest@;
                                let mut v = rest;
                                v.insert(0, n);
                                proof {
                                    assert(v@.subrange(1, v@.len() as int) =~= r0);
                                    lemma_spec_nodes_of(v@);
                                    lemma_spec_nodes_of(r0);
                                    assert(spec_nodes_of(v@) =~= seq![spec_node_of(n)]
                                        + spec_nodes_of(r0));
                                }
                                Ok(v)
                            },
                            Err(e) => Err(e),
                        }
                    },
                    Some(LexItem::SpecialChar(')')) => {
                        let mut v: Vec<FilterNode> = Vec::new();
                        v.push(n);
                        proof {
                            lemma_spec_nodes_of(v@);
                            assert(spec_nodes_of(v@) =~= seq![spec_node_of(n)]);
                        }
                        Ok(v)
                    },
                    _ => Err(self.parse_error()),
                }
            },
            Err(e) => Err(e),
        }
    }

    /// Parses the top-level production under `key`.
    fn parse_top_level_expr(&mut self, key: &str) -> (r: Result<FilterNode, ParseError>)
        requires
            old(self).wf(),
        ensures
            final(self).wf(),
            final(self).spec_raw() == old(self).spec_raw(),
            match r {
                Ok(n) => spec_parse_top(key@, old(self).spec_tokens(), old(self).spec_position())
                    == Ok::<_, ()>((n@, final(self).spec_position())),
                Err(e) => spec_parse_top(key@, old(self).spec_tokens(), old(self).spec_position())
                    is Err && Self::spec_error_wf(&e, old(self).spec_raw()),
            },
    {
        match LogicOp::of_name(&key.to_owned()) {
            // Case TopLevelExpr -> (InnerFilters)
            Some(op) => match self.parse_inner_filters() {
                Ok(operands) => Ok(FilterNode::Logical { op, operands }),
                Err(e) => Err(e),
            },
            None => match self.peek() {
                // Case TopLevelExpr -> Field=Value
                Some(LexItem::Symbol(_)) => {
                    match self.advance() {
                        Some(LexItem::Symbol(val)) => Ok(
                            FilterNode::Equals { field: key.to_owned(), value: val },
                        ),
                        _ => Err(self.parse_error()),
                    }
                },
                // Case TopLevelExpr -> Field=ComparisonOp.Value
                Some(LexItem::ComparisonOperator(_)) => {
                    match (self.advance(), self.advance(), self.advance()) {
                        (
                            Some(LexItem::ComparisonOperator(op_name)),
                            Some(LexItem::SpecialChar('.')),
                            Some(LexItem::Symbol(value)),
                        ) => {
                            match CompareOp::of_name(&op_name) {
                                Some(op) => Ok(
                                    FilterNode::Compare { field: key.to_owned(), op, value },
                                ),
                                None => Err(self.parse_error()),
                            }
                        },
                        _ => Err(self.parse_error()),
                    }
                },
                _ => Err(self.parse_error()),
            },
        }
    }

    /// Parses the whole token sequence under `key`: the top-level
    /// production must consume every token, and leftover tokens are
    /// rejected.
    pub fn parse(&mut self, key: &str) -> (r: Result<FilterNode, ParseError>)
        requires
            old(self).wf(),
        ensures
            final(self).wf(),
            final(self).spec_raw() == old(self).spec_raw(),
            match r {
                Ok(n) => spec_parse(key@, old(self).spec_tokens(), old(self).spec_position())
                    == Ok::<_, ()>(n@),
                Err(e) => spec_parse(key@, old(self).spec_tokens(), old(self).spec_position())
                    is Err && Self::spec_error_wf(&e, old(self).spec_raw()),
            },
    {
        let result = match self.parse_top_level_expr(key) {
            Ok(n) => n,
            Err(e) => {
                return Err(e);
            },
        };
        match self.peek() {
            Some(_) => Err(self.parse_error()),
            None => Ok(result),
        }
    }
}

} // verus!
