//! The compiler's entry points: one call per query parameter, and the
//! fold that merges the parameters of one request into a single composite
//! filter document.

use crate::ast::FilterNode;
use crate::ast::SpecNode;
use crate::ast::lemma_spec_nodes_of;
use crate::ast::spec_logic_key;
use crate::ast::spec_node_of;
use crate::ast::spec_nodes_of;
use crate::lexer::Lexer;
use crate::lexer::spec_lex;
use crate::parser::ParseError;
use crate::parser::Parser;
use crate::parser::spec_parse;
use crate::token::LexError;
use vstd::prelude::*;

verus! {

/// Everything one `compile` call can report: the lexer's rejection or the
/// parser's.
#[derive(Debug)]
pub enum CompileError {
    Lex(LexError),
    Parse(ParseError),
}

/// What one `(key, value)` query parameter compiles to: the value lexed to
/// tokens and parsed under the key, with nothing left over.
pub open spec fn spec_compile(key: Seq<char>, value: Seq<char>) -> Result<SpecNode, ()> {
    match spec_lex(value) {
        Ok(ts) => spec_parse(key, ts, 0),
        Err(_) => Err(()),
    }
}

/// Compiles one query parameter `(key, value)` into a filter expression:
/// the value is lexed and parsed under the key, and every token must be
/// consumed.
pub fn compile(key: &str, value: &str) -> (r: Result<FilterNode, CompileError>)
    ensures
        match r {
            Ok(n) => spec_compile(key@, value@) == Ok::<_, ()>(n@),
            Err(CompileError::Lex(e)) => spec_lex(value@) == Err::<Seq<crate::token::SpecToken>,
                int,
            >(e.position as int) && e.character == value@[e.position as int],
            Err(CompileError::Parse(e)) => spec_lex(value@) is Ok && spec_compile(key@, value@)
                is Err,
        },
        r is Ok <==> spec_compile(key@, value@) is Ok,
{
    let mut lexer = Lexer::new(value);
    let tokens = match lexer.tokenize() {
        Ok(t) => t,
        Err(e) => {
            return Err(CompileError::Lex(e));
        },
    };
    let mut parser = Parser::new(tokens);
    match parser.parse(key) {
        Ok(n) => Ok(n),
        Err(e) => Err(CompileError::Parse(e)),
    }
}

/// The key under which one filter expression stands in the composite
/// document: the field name, or the operator key of a logical group.
pub open spec fn spec_node_key(n: SpecNode) -> Seq<char> {
    match n {
        SpecNode::Equals { field, .. } => field,
        SpecNode::Compare { field, .. } => field,
        SpecNode::Logical { op, .. } => spec_logic_key(op),
    }
}

impl FilterNode {
    /// The key under which this expression stands in a composite document.
    pub fn doc_key(&self) -> (r: String)
        ensures
            r@ == spec_node_key(self@),
    {
        match self {
            FilterNode::Equals { field, .. } => field.clone(),
            FilterNode::Compare { field, .. } => field.clone(),
            FilterNode::Logical { op, .. } => op.bson_key(),
        }
    }
}

/// Inserting one expression into a document: it replaces the first entry
/// that stands under the same key, or stands at the end when the key is
/// new. Later writes win on duplicate keys.
pub open spec fn spec_doc_insert(doc: Seq<SpecNode>, n: SpecNode) -> Seq<SpecNode>
    decreases doc.len(),
{
    if doc.len() == 0 {
        seq![n]
    } else if spec_node_key(doc[0]) == spec_node_key(n) {
        seq![n] + doc.drop_first()
    } else {
        seq![doc[0]] + spec_doc_insert(doc.drop_first(), n)
    }
}

/// No two entries of a composite document stand under the same key.
pub open spec fn spec_doc_keys_distinct(doc: Seq<SpecNode>) -> bool {
    forall|i: int, j: int|
        0 <= i < j < doc.len() ==> spec_node_key(doc[i]) != spec_node_key(doc[j])
}

/// What inserting does, entry by entry: when some entry holds the new
/// key, the first such entry is replaced in place; otherwise the new
/// expression is appended. Every key of the result was a key of the
/// document or is the new key, and key distinctness is kept.
pub proof fn lemma_doc_insert(doc: Seq<SpecNode>, n: SpecNode)
    ensures
        (forall|i: int| 0 <= i < doc.len() ==> spec_node_key(doc[i]) != spec_node_key(n))
            ==> spec_doc_insert(doc, n) =~= doc.push(n),
        forall|k: int|
            0 <= k < doc.len() && spec_node_key(doc[k]) == spec_node_key(n) && (forall|i: int|
                0 <= i < k ==> spec_node_key(doc[i]) != spec_node_key(n)) ==> spec_doc_insert(
                doc,
                n,
            ) =~= doc.update(k, n),
        forall|j: int|
            0 <= j < spec_doc_insert(doc, n).len() ==> spec_node_key(
                #[trigger] spec_doc_insert(doc, n)[j],
            ) == spec_node_key(n) || exists|i: int|
                0 <= i < doc.len() && spec_node_key(spec_doc_insert(doc, n)[j]) == spec_node_key(
                    doc[i],
                ),
        spec_doc_keys_distinct(doc) ==> spec_doc_keys_distinct(spec_doc_insert(doc, n)),
    decreases doc.len(),
{
    let res = spec_doc_insert(doc, n);
    if doc.len() == 0 {
    } else if spec_node_key(doc[0]) == spec_node_key(n) {
        assert(seq![n] + doc.drop_first() =~= doc.update(0, n));
        assert forall|j: int| 0 <= j < res.len() implies spec_node_key(#[trigger] res[j])
            == spec_node_key(n) || exists|i: int|
            0 <= i < doc.len() && spec_node_key(res[j]) == spec_node_key(doc[i]) by {
            if j > 0 {
                assert(res[j] == doc[j]);
            }
        }
    } else {
        lemma_doc_insert(doc.drop_first(), n);
        let tail = doc.drop_first();
        let rest = spec_doc_insert(tail, n);
        assert(res =~= seq![doc[0]] + rest);
        if forall|i: int| 0 <= i < doc.len() ==> spec_node_key(doc[i]) != spec_node_key(n) {
            assert(forall|i: int|
                0 <= i < tail.len() ==> spec_node_key(tail[i]) != spec_node_key(n));
            assert(seq![doc[0]] + tail.push(n) =~= doc.push(n));
        }
        assert forall|k: int|
            0 <= k < doc.len() && spec_node_key(doc[k]) == spec_node_key(n) && (forall|i: int|
                0 <= i < k ==> spec_node_key(doc[i]) != spec_node_key(n)) implies res =~= doc.update(
            k,
            n,
        ) by {
            assert(k > 0);
            assert(spec_node_key(tail[k - 1]) == spec_node_key(n));
            assert(forall|i: int| 0 <= i < k - 1 ==> spec_node_key(tail[i]) != spec_node_key(n));
            assert(rest =~= tail.update(k - 1, n));
            assert(seq![doc[0]] + tail.update(k - 1, n) =~= doc.update(k, n));
        }
        assert forall|j: int| 0 <= j < res.len() implies spec_node_key(#[trigger] res[j])
            == spec_node_key(n) || exists|i: int|
            0 <= i < doc.len() && spec_node_key(res[j]) == spec_node_key(doc[i]) by {
            if j == 0 {
                assert(spec_node_key(res[0]) == spec_node_key(doc[0]));
            } else {
                assert(res[j] == rest[j - 1]);
                if spec_node_key(rest[j - 1]) != spec_node_key(n) {
                    let i0 = choose|i: int|
                        0 <= i < tail.len() && spec_node_key(rest[j - 1]) == spec_node_key(tail[i]);
                    assert(spec_node_key(res[j]) == spec_node_key(doc[i0 + 1]));
                }
            }
        }
        if spec_doc_keys_distinct(doc) {
            assert(spec_doc_keys_distinct(tail)) by {
                assert(forall|i: int| 0 <= i < tail.len() ==> tail[i] == doc[i + 1]);
            }
            assert forall|a: int, b: int| 0 <= a < b < res.len() implies spec_node_key(res[a])
                != spec_node_key(res[b]) by {
                if a == 0 {
                    assert(res[b] == rest[b - 1]);
                    if spec_node_key(rest[b - 1]) == spec_node_key(n) {
                    } else {
                        let i0 = choose|i: int|
                            0 <= i < tail.len() && spec_node_key(rest[b - 1]) == spec_node_key(
                                tail[i],
                            );
                        assert(spec_node_key(res[b]) == spec_node_key(doc[i0 + 1]));
                    }
                } else {
                    assert(res[a] == rest[a - 1] && res[b] == rest[b - 1]);
                }
            }
        }
    }
}

/// The composite filter document of an ordered parameter list: each
/// parameter compiled on its own and folded in by key, later writes
/// winning; the first parameter the compiler rejects fails the whole
/// list.
pub open spec fn spec_params_doc(params: Seq<(Seq<char>, Seq<char>)>) -> Result<Seq<SpecNode>, ()>
    decreases params.len(),
{
    if params.len() == 0 {
        Ok(Seq::empty())
    } else {
        match spec_params_doc(params.drop_last()) {
            Ok(doc) => match spec_compile(params.last().0, params.last().1) {
                Ok(n) => Ok(spec_doc_insert(doc, n)),
                Err(_) => Err(()),
            },
            Err(e) => Err(e),
        }
    }
}

/// The models of an ordered `(key, value)` parameter list.
pub open spec fn spec_params_of(s: Seq<(String, String)>) -> Seq<(Seq<char>, Seq<char>)> {
    Seq::new(s.len(), |i: int| (s[i].0@, s[i].1@))
}

/// A composite filter document: ordered entries, no two under the same
/// key.
#[derive(Debug)]
pub struct FilterDoc {
    pub nodes: Vec<FilterNode>,
}

impl FilterDoc {
    /// The model of the document: its entries, in order.
    pub open spec fn view(&self) -> Seq<SpecNode> {
        spec_nodes_of(self.nodes@)
    }

    /// No two entries stand under the same key.
    pub open spec fn wf(&self) -> bool {
        spec_doc_keys_distinct(self.view())
    }
}

/// Inserts one expression into the document: it replaces the first entry
/// under the same key, or goes to the end.
fn doc_insert(nodes: &mut Vec<FilterNode>, n: FilterNode)
    ensures
        spec_nodes_of(final(nodes)@) == spec_doc_insert(spec_nodes_of(old(nodes)@), spec_node_of(n)),
{
    let ghost doc0 = spec_nodes_of(old(nodes)@);
    let key = n.doc_key();
    let mut i: usize = 0;
    while i < nodes.len()
        invariant
            0 <= i <= nodes@.len(),
            nodes@ == old(nodes)@,
            doc0 == spec_nodes_of(nodes@),
            key@ == spec_node_key(spec_node_of(n)),
            forall|j: int| 0 <= j < i ==> spec_node_key(doc0[j]) != spec_node_key(spec_node_of(n)),
        decreases nodes@.len() - i,
    {
        proof {
            lemma_spec_nodes_of(nodes@);
        }
        let entry_key = nodes[i].doc_key();
        if entry_key == key {
            let ghost k = i as int;
            let ghost raw0 = nodes@;
            nodes.remove(i);
            nodes.insert(i, n);
            proof {
                assert(nodes@ =~= raw0.update(k, n));
                lemma_spec_nodes_of(nodes@);
                lemma_spec_nodes_of(raw0);
                assert(spec_nodes_of(nodes@) =~= doc0.update(k, spec_node_of(n)));
                lemma_doc_insert(doc0, spec_node_of(n));
            }
            return ;
        }
        i += 1;
    }
    proof {
        lemma_spec_nodes_of(nodes@);
    }
    let ghost raw0 = nodes@;
    nodes.push(n);
    proof {
        lemma_spec_nodes_of(nodes@);
        lemma_spec_nodes_of(raw0);
        assert(spec_nodes_of(nodes@) =~= doc0.push(spec_node_of(n)));
        lemma_doc_insert(doc0, spec_node_of(n));
    }
}

/// Folds an ordered `(key, value)` parameter list into one composite
/// filter document: each parameter is compiled on its own and merged in
/// under its key, later writes winning on duplicate keys; the first
/// parameter the compiler rejects fails the whole list with its error.
pub fn parse_query_params(query_params: &Vec<(String, String)>) -> (r: Result<
    FilterDoc,
    CompileError,
>)
    ensures
        match r {
            Ok(doc) => spec_params_doc(spec_params_of(query_params@)) == Ok::<_, ()>(doc@)
                && doc.wf(),
            Err(_) => spec_params_doc(spec_params_of(query_params@)) is Err,
        },
{
    let ghost ps = spec_params_of(query_params@);
    let mut nodes: Vec<FilterNode> = Vec::new();
    let mut i: usize = 0;
    while i < query_params.len()
        invariant
            0 <= i <= query_params@.len(),
            ps == spec_params_of(query_params@),
            ps.len() == query_params@.len(),
            spec_params_doc(ps.subrange(0, i as int)) == Ok::<_, ()>(spec_nodes_of(nodes@)),
            spec_doc_keys_distinct(spec_nodes_of(nodes@)),
        decreases query_params@.len() - i,
    {
        let n = match compile(query_params[i].0.as_str(), query_params[i].1.as_str()) {
            Ok(n) => n,
            Err(e) => {
                proof {
                    lemma_params_doc_prefix_err(ps, i as int);
                }
                return Err(e);
            },
        };
        proof {
            lemma_doc_insert(spec_nodes_of(nodes@), spec_node_of(n));
        }
        doc_insert(&mut nodes, n);
        i += 1;
        proof {
            assert(ps.subrange(0, i as int).drop_last() =~= ps.subrange(0, i - 1));
            assert(ps.subrange(0, i as int).last() == ps[i - 1]);
        }
    }
    proof {
        assert(ps.subrange(0, ps.len() as int) =~= ps);
    }
    Ok(FilterDoc { nodes })
}

/// When one parameter of the list fails to compile, the whole list fails.
proof fn lemma_params_doc_prefix_err(ps: Seq<(Seq<char>, Seq<char>)>, i: int)
    requires
        0 <= i < ps.len(),
        spec_params_doc(ps.subrange(0, i)) is Ok,
        spec_compile(ps[i].0, ps[i].1) is Err,
    ensures
        spec_params_doc(ps) is Err,
{
    lemma_params_doc_err_from(ps, i, ps.len() as int);
    assert(ps.subrange(0, ps.len() as int) =~= ps);
}

/// Once the prefix through one failing parameter fails, every longer
/// prefix fails too.
proof fn lemma_params_doc_err_from(ps: Seq<(Seq<char>, Seq<char>)>, i: int, j: int)
    requires
        0 <= i < j <= ps.len(),
        spec_params_doc(ps.subrange(0, i)) is Ok,
        spec_compile(ps[i].0, ps[i].1) is Err,
    ensures
        spec_params_doc(ps.subrange(0, j)) is Err,
    decreases j,
{
    let pre = ps.subrange(0, j);
    if j == i + 1 {
        assert(pre.drop_last() =~= ps.subrange(0, i));
        assert(pre.last() == ps[i]);
    } else {
        lemma_params_doc_err_from(ps, i, j - 1);
        assert(pre.drop_last() =~= ps.subrange(0, j - 1));
    }
}

} // verus!
