//! Scalar values, the filter-expression tree, and the fixed operator tables,
//! together with their mathematical models.

use vstd::prelude::*;

verus! {

/// A literal scalar: a character string, or a numeric literal carried as the
/// exact text the lexer captured (an optional `-`, digits, at most one `.`).
/// The compiler never does arithmetic on a number; the boundary that hands
/// the finished filter to the document store converts the text to a
/// double-precision value.
#[derive(Debug)]
pub enum Value {
    Str(String),
    Num(String),
}

/// The model of a [`Value`]: each payload as a sequence of characters.
#[verifier::ext_equal]
pub enum SpecValue {
    Str(Seq<char>),
    Num(Seq<char>),
}

impl View for Value {
    type V = SpecValue;

    open spec fn view(&self) -> SpecValue {
        match self {
            Value::Str(s) => SpecValue::Str(s@),
            Value::Num(s) => SpecValue::Num(s@),
        }
    }
}

impl DeepView for Value {
    type V = SpecValue;

    open spec fn deep_view(&self) -> SpecValue {
        self.view()
    }
}

impl Clone for Value {
    fn clone(&self) -> (r: Value)
        ensures
            r == *self,
    {
        match self {
            Value::Str(s) => Value::Str(s.clone()),
            Value::Num(s) => Value::Num(s.clone()),
        }
    }
}

impl PartialEq for Value {
    fn eq(&self, other: &Value) -> (r: bool) {
        match (self, other) {
            (Value::Str(a), Value::Str(b)) => *a == *b,
            (Value::Num(a), Value::Num(b)) => *a == *b,
            _ => false,
        }
    }
}

impl Eq for Value {

}

impl vstd::std_specs::cmp::PartialEqSpecImpl for Value {
    open spec fn obeys_eq_spec() -> bool {
        true
    }

    open spec fn eq_spec(&self, other: &Value) -> bool {
        self@ == other@
    }
}

/// A comparison operator of the fixed table.
#[derive(Clone, Copy, Debug, PartialEq, Eq, Structural)]
pub enum CompareOp {
    Eq,
    Lt,
    Gt,
    Lte,
    Gte,
}

/// A logical operator: a conjunction or a disjunction of sub-filters.
#[derive(Clone, Copy, Debug, PartialEq, Eq, Structural)]
pub enum LogicOp {
    And,
    Or,
}

/// The fixed comparison-operator table: the source name of each operator.
pub open spec fn spec_compare_op_of_name(name: Seq<char>) -> Option<CompareOp> {
    if name == "eq"@ {
        Some(CompareOp::Eq)
    } else if name == "lt"@ {
        Some(CompareOp::Lt)
    } else if name == "gt"@ {
        Some(CompareOp::Gt)
    } else if name == "lte"@ {
        Some(CompareOp::Lte)
    } else if name == "gte"@ {
        Some(CompareOp::Gte)
    } else {
        None
    }
}

/// The fixed logical-operator table: the source name of each operator.
pub open spec fn spec_logic_op_of_name(name: Seq<char>) -> Option<LogicOp> {
    if name == "and"@ {
        Some(LogicOp::And)
    } else if name == "or"@ {
        Some(LogicOp::Or)
    } else {
        None
    }
}

/// The operator key each comparison operator lowers to in the output filter.
pub open spec fn spec_compare_key(op: CompareOp) -> Seq<char> {
    match op {
        CompareOp::Eq => "$eq"@,
        CompareOp::Lt => "$lt"@,
        CompareOp::Gt => "$gt"@,
        CompareOp::Lte => "$lte"@,
        CompareOp::Gte => "$gte"@,
    }
}

/// The operator key each logical operator lowers to in the output filter.
pub open spec fn spec_logic_key(op: LogicOp) -> Seq<char> {
    match op {
        LogicOp::And => "$and"@,
        LogicOp::Or => "$or"@,
    }
}

impl CompareOp {
    /// Looks a comparison-operator name up in the fixed table; an unknown
    /// name fails closed.
    pub fn of_name(name: &String) -> (r: Option<CompareOp>)
        ensures
            r == spec_compare_op_of_name(name@),
    {
        if *name == "eq".to_owned() {
            Some(CompareOp::Eq)
        } else if *name == "lt".to_owned() {
            Some(CompareOp::Lt)
        } else if *name == "gt".to_owned() {
            Some(CompareOp::Gt)
        } else if *name == "lte".to_owned() {
            Some(CompareOp::Lte)
        } else if *name == "gte".to_owned() {
            Some(CompareOp::Gte)
        } else {
            None
        }
    }

    /// The operator key this operator lowers to (`$eq`, `$lt`, ...).
    pub fn bson_key(&self) -> (r: String)
        ensures
            r@ == spec_compare_key(*self),
    {
        match self {
            CompareOp::Eq => "$eq".to_owned(),
            CompareOp::Lt => "$lt".to_owned(),
            CompareOp::Gt => "$gt".to_owned(),
            CompareOp::Lte => "$lte".to_owned(),
            CompareOp::Gte => "$gte".to_owned(),
        }
    }
}

impl LogicOp {
    /// Looks a logical-operator name up in the fixed table; an unknown name
    /// fails closed.
    pub fn of_name(name: &String) -> (r: Option<LogicOp>)
        ensures
            r == spec_logic_op_of_name(name@),
    {
        if *name == "and".to_owned() {
            Some(LogicOp::And)
        } else if *name == "or".to_owned() {
            Some(LogicOp::Or)
        } else {
            None
        }
    }

    /// The operator key this operator lowers to (`$and` or `$or`).
    pub fn bson_key(&self) -> (r: String)
        ensures
            r@ == spec_logic_key(*self),
    {
        match self {
            LogicOp::And => "$and".to_owned(),
            LogicOp::Or => "$or".to_owned(),
        }
    }
}

/// One parsed filter expression, already in the shape the document store
/// consumes: a field equality, a field comparison, or an ordered group of
/// sub-filters under a logical operator.
#[derive(Debug)]
pub enum FilterNode {
    Equals { field: String, value: Value },
    Compare { field: String, op: CompareOp, value: Value },
    Logical { op: LogicOp, operands: Vec<FilterNode> },
}

/// The model of a [`FilterNode`].
#[verifier::ext_equal]
pub enum SpecNode {
    Equals { field: Seq<char>, value: SpecValue },
    Compare { field: Seq<char>, op: CompareOp, value: SpecValue },
    Logical { op: LogicOp, operands: Seq<SpecNode> },
}

/// The model of one [`FilterNode`].
pub open spec fn spec_node_of(n: FilterNode) -> SpecNode
    decreases n,
{
    match n {
        FilterNode::Equals { field, value } => SpecNode::Equals { field: field@, value: value@ },
        FilterNode::Compare { field, op, value } => SpecNode::Compare {
            field: field@,
            op: op,
            value: value@,
        },
        FilterNode::Logical { op, operands } => SpecNode::Logical {
            op: op,
            operands: spec_nodes_of(operands@),
        },
    }
}

/// The models of a sequence of [`FilterNode`]s, in order.
pub open spec fn spec_nodes_of(s: Seq<FilterNode>) -> Seq<SpecNode>
    decreases s,
{
    if s.len() == 0 {
        Seq::empty()
    } else {
        spec_nodes_of(s.drop_last()).push(spec_node_of(s.last()))
    }
}

impl View for FilterNode {
    type V = SpecNode;

    open spec fn view(&self) -> SpecNode {
        spec_node_of(*self)
    }
}

impl DeepView for FilterNode {
    type V = SpecNode;

    open spec fn deep_view(&self) -> SpecNode {
        self.view()
    }
}

/// The model of a node sequence is the sequence of the models, in order.
pub proof fn lemma_spec_nodes_of(s: Seq<FilterNode>)
    ensures
        spec_nodes_of(s).len() == s.len(),
        forall|i: int| 0 <= i < s.len() ==> spec_nodes_of(s)[i] == spec_node_of(s[i]),
    decreases s,
{
    if s.len() > 0 {
        lemma_spec_nodes_of(s.drop_last());
    }
}

impl FilterNode {
    /// Structural equality of two filter expressions: they are equal exactly
    /// when their models are.
    pub fn equals(&self, other: &FilterNode) -> (r: bool)
        ensures
            r == (self@ == other@),
        decreases *self,
    {
        match (self, other) {
            (
                FilterNode::Equals { field: f1, value: v1 },
                FilterNode::Equals { field: f2, value: v2 },
            ) => *f1 == *f2 && *v1 == *v2,
            (
                FilterNode::Compare { field: f1, op: o1, value: v1 },
                FilterNode::Compare { field: f2, op: o2, value: v2 },
            ) => *f1 == *f2 && *o1 == *o2 && *v1 == *v2,
            (
                FilterNode::Logical { op: o1, operands: n1 },
                FilterNode::Logical { op: o2, operands: n2 },
            ) => *o1 == *o2 && nodes_equal(n1, n2),
            _ => false,
        }
    }
}

/// Structural equality of two ordered operand lists.
fn nodes_equal(a: &Vec<FilterNode>, b: &Vec<FilterNode>) -> (r: bool)
    ensures
        r == (spec_nodes_of(a@) == spec_nodes_of(b@)),
    decreases a@,
{
    proof {
        lemma_spec_nodes_of(a@);
        lemma_spec_nodes_of(b@);
    }
    if a.len() != b.len() {
        return false;
    }
    let n = a.len();
    let mut i: usize = 0;
    while i < n
        invariant
            n == a@.len() == b@.len(),
            0 <= i <= n,
            forall|j: int| 0 <= j < i ==> spec_node_of(a@[j]) == spec_node_of(b@[j]),
        decreases n - i,
    {
        proof {
            assert(decreases_to!(a@ => a@[i as int]));
        }
        if !a[i].equals(&b[i]) {
            proof {
                lemma_spec_nodes_of(a@);
                lemma_spec_nodes_of(b@);
                assert(spec_nodes_of(a@)[i as int] == spec_node_of(a@[i as int]));
                assert(spec_nodes_of(b@)[i as int] == spec_node_of(b@[i as int]));
            }
            return false;
        }
        i += 1;
    }
    proof {
        assert(spec_nodes_of(a@) =~= spec_nodes_of(b@));
    }
    true
}

impl PartialEq for FilterNode {
    fn eq(&self, other: &FilterNode) -> (r: bool) {
        self.equals(other)
    }
}

impl Eq for FilterNode {

}

impl vstd::std_specs::cmp::PartialEqSpecImpl for FilterNode {
    open spec fn obeys_eq_spec() -> bool {
        true
    }

    open spec fn eq_spec(&self, other: &FilterNode) -> bool {
        self@ == other@
    }
}

} // verus!
