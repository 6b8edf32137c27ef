//! Expressions in reverse Polish notation.
//!
//! An [`Expression`] is a flat sequence of [`Node`]s: leaves (named
//! constants, numeric literals, input variables, tunable parameters) and
//! operator applications that pop their arguments off an evaluation stack.
//! Numeric values are carried as IEEE-754 bit patterns together with their
//! shortest round-trip decimal text, so that expressions can be assembled,
//! rewritten and displayed without floating-point arithmetic.

use vstd::prelude::*;

verus! {

/// A double-precision number: its IEEE-754 bit pattern and its shortest
/// round-trip decimal text (the text `format!("{}", v)` produces for it).
#[derive(Clone, Debug)]
pub struct Real {
    pub bits: u64,
    pub text: String,
}

/// A complex number; the engine stores parameters with a real and an
/// imaginary part. The imaginary part is never displayed, so it is held by
/// its IEEE-754 bit pattern alone.
#[derive(Clone, Debug)]
pub struct Value {
    pub re: Real,
    pub im_bits: u64,
}

/// `v` as a complex value with zero imaginary part.
pub open spec fn real_of(v: Real) -> Value {
    Value { re: v, im_bits: 0 }
}

/// One RPN node.
#[derive(Clone, Debug)]
pub enum Node {
    /// A named constant of the operator registry.
    Const { op_id: u8 },
    /// A numeric literal.
    Num(Real),
    /// Input variable `v_{i}`.
    Var(u8),
    /// Tunable parameter number `id` with its current value.
    Param { id: u8, initial_value: Value },
    /// Operator `op_id` applied to the top `arity` stack entries.
    Op { op_id: u8, arity: u8 },
}

/// An expression: RPN nodes, the number of input variables and parameters
/// it refers to, and its display string.
#[derive(Clone, Debug)]
pub struct Expression {
    pub nodes: Vec<Node>,
    pub var_count: u8,
    pub param_count: u8,
    pub display: String,
}

impl Real {
    /// A copy of this number.
    pub fn duplicate(&self) -> (r: Real)
        ensures
            r == *self,
    {
        Real { bits: self.bits, text: self.text.clone() }
    }
}

impl Value {
    /// A copy of this value.
    pub fn duplicate(&self) -> (r: Value)
        ensures
            r == *self,
    {
        Value { re: self.re.duplicate(), im_bits: self.im_bits }
    }
}

/// Number of stack entries a node pops.
pub open spec fn pops(n: Node) -> nat {
    match n {
        Node::Op { arity, .. } => arity as nat,
        _ => 0,
    }
}

/// Net change of the stack depth over a node sequence.
pub open spec fn depth(s: Seq<Node>) -> int
    decreases s.len(),
{
    if s.len() == 0 {
        0
    } else {
        depth(s.drop_last()) + 1 - pops(s.last())
    }
}

/// No operator in `s` pops below the bottom of the stack `s` built.
pub open spec fn balanced(s: Seq<Node>) -> bool
    decreases s.len(),
{
    if s.len() == 0 {
        true
    } else {
        balanced(s.drop_last()) && depth(s.drop_last()) >= pops(s.last())
    }
}

/// `s` encodes exactly one tree: it never underflows and leaves one entry.
pub open spec fn is_tree(s: Seq<Node>) -> bool {
    balanced(s) && depth(s) == 1
}

/// Whether a node is a parameter.
pub open spec fn is_param(n: Node) -> bool {
    n is Param
}

/// Every parameter id in `s` is below `count`.
pub open spec fn params_below(s: Seq<Node>, count: nat) -> bool {
    forall|i: int| 0 <= i < s.len() && #[trigger] is_param(s[i]) ==> s[i]->id < count
}

/// Every parameter id in `s` can be raised by `by` within `u8`.
pub open spec fn params_shiftable(s: Seq<Node>, by: nat) -> bool {
    forall|i: int| 0 <= i < s.len() && #[trigger] is_param(s[i]) ==> s[i]->id + by <= u8::MAX
}

/// `n` with its parameter id raised by `by`.
pub open spec fn shift_node(n: Node, by: nat) -> Node {
    match n {
        Node::Param { id, initial_value } => Node::Param { id: (id + by) as u8, initial_value },
        _ => n,
    }
}

/// Every parameter id of `s` raised by `by`.
pub open spec fn shift_nodes(s: Seq<Node>, by: nat) -> Seq<Node> {
    s.map_values(|n: Node| shift_node(n, by))
}

/// Whether `s` refers to no input variable.
pub open spec fn scalar_only(s: Seq<Node>) -> bool {
    forall|i: int| 0 <= i < s.len() ==> !(s[i] is Var)
}

impl Node {
    /// A copy of this node.
    pub fn duplicate(&self) -> (r: Node)
        ensures
            r == *self,
    {
        match self {
            Node::Const { op_id } => Node::Const { op_id: *op_id },
            Node::Num(v) => Node::Num(v.duplicate()),
            Node::Var(i) => Node::Var(*i),
            Node::Param { id, initial_value } => Node::Param {
                id: *id,
                initial_value: initial_value.duplicate(),
            },
            Node::Op { op_id, arity } => Node::Op { op_id: *op_id, arity: *arity },
        }
    }
}

/// `0.0` as a number.
pub fn real_zero() -> (r: Real)
    ensures
        r.bits == 0,
        r.text@ == seq!['0'],
{
    proof {
        reveal_strlit("0");
    }
    Real { bits: 0, text: String::from_str("0") }
}

/// `1.0` as a number.
pub fn real_one() -> (r: Real)
    ensures
        r.bits == 0x3FF0_0000_0000_0000,
        r.text@ == seq!['1'],
{
    proof {
        reveal_strlit("1");
    }
    Real { bits: 0x3FF0_0000_0000_0000, text: String::from_str("1") }
}

/// `2.0` as a number.
pub fn real_two() -> (r: Real)
    ensures
        r.bits == 0x4000_0000_0000_0000,
        r.text@ == seq!['2'],
{
    proof {
        reveal_strlit("2");
    }
    Real { bits: 0x4000_0000_0000_0000, text: String::from_str("2") }
}

/// `-1.0` as a number.
pub fn real_minus_one() -> (r: Real)
    ensures
        r.bits == 0xBFF0_0000_0000_0000,
        r.text@ == seq!['-', '1'],
{
    proof {
        reveal_strlit("-1");
    }
    Real { bits: 0xBFF0_0000_0000_0000, text: String::from_str("-1") }
}

/// `-2.0` as a number.
pub fn real_minus_two() -> (r: Real)
    ensures
        r.bits == 0xC000_0000_0000_0000,
        r.text@ == seq!['-', '2'],
{
    proof {
        reveal_strlit("-2");
    }
    Real { bits: 0xC000_0000_0000_0000, text: String::from_str("-2") }
}

/// `-3.0` as a number.
pub fn real_minus_three() -> (r: Real)
    ensures
        r.bits == 0xC008_0000_0000_0000,
        r.text@ == seq!['-', '3'],
{
    proof {
        reveal_strlit("-3");
    }
    Real { bits: 0xC008_0000_0000_0000, text: String::from_str("-3") }
}

/// `3.0` as a number.
pub fn real_three() -> (r: Real)
    ensures
        r.bits == 0x4008_0000_0000_0000,
        r.text@ == seq!['3'],
{
    proof {
        reveal_strlit("3");
    }
    Real { bits: 0x4008_0000_0000_0000, text: String::from_str("3") }
}

/// `0.5` as a number.
pub fn real_half() -> (r: Real)
    ensures
        r.bits == 0x3FE0_0000_0000_0000,
        r.text@ == seq!['0', '.', '5'],
{
    proof {
        reveal_strlit("0.5");
    }
    Real { bits: 0x3FE0_0000_0000_0000, text: String::from_str("0.5") }
}

/// `-0.5` as a number.
pub fn real_minus_half() -> (r: Real)
    ensures
        r.bits == 0xBFE0_0000_0000_0000,
        r.text@ == seq!['-', '0', '.', '5'],
{
    proof {
        reveal_strlit("-0.5");
    }
    Real { bits: 0xBFE0_0000_0000_0000, text: String::from_str("-0.5") }
}

/// `v` as a complex value with zero imaginary part.
pub fn real_value(v: Real) -> (r: Value)
    ensures
        r == real_of(v),
{
    Value { re: v, im_bits: 0 }
}

/// A copy of a node slice.
pub fn copy_nodes(s: &[Node]) -> (r: Vec<Node>)
    ensures
        r@ == s@,
{
    let mut r: Vec<Node> = Vec::with_capacity(s.len());
    let mut i: usize = 0;
    while i < s.len()
        invariant
            i <= s@.len(),
            r@ == s@.take(i as int),
        decreases s@.len() - i,
    {
        r.push(s[i].duplicate());
        i += 1;
        assert(r@ =~= s@.take(i as int));
    }
    assert(s@.take(s@.len() as int) =~= s@);
    r
}

/// A copy of a vector of numbers.
pub fn copy_reals(v: &Vec<Real>) -> (r: Vec<Real>)
    ensures
        r@ == v@,
{
    let mut r: Vec<Real> = Vec::with_capacity(v.len());
    let mut i: usize = 0;
    while i < v.len()
        invariant
            i <= v@.len(),
            r@ == v@.take(i as int),
        decreases v@.len() - i,
    {
        r.push(v[i].duplicate());
        i += 1;
        assert(r@ =~= v@.take(i as int));
    }
    assert(v@.take(v@.len() as int) =~= v@);
    r
}

impl Expression {
    /// Assembles an expression from its parts.
    pub fn new(nodes: Vec<Node>, var_count: u8, param_count: u8, display: String) -> (e: Expression)
        ensures
            e.nodes == nodes,
            e.var_count == var_count,
            e.param_count == param_count,
            e.display == display,
    {
        Expression { nodes, var_count, param_count, display }
    }

    /// The single-variable expression `v_{index}`.
    pub fn variable(index: u8, display: String) -> (e: Expression)
        requires
            index < u8::MAX,
        ensures
            e.nodes@ == seq![Node::Var(index)],
            e.var_count == index + 1,
            e.param_count == 0,
            e.display == display,
    {
        let mut nodes: Vec<Node> = Vec::new();
        nodes.push(Node::Var(index));
        Expression { nodes, var_count: index + 1, param_count: 0, display }
    }

    /// A lone tunable parameter (id 0) starting at `init`.
    pub fn parameter_with(init: Real) -> (e: Expression)
        ensures
            e.nodes@.len() == 1,
            e.nodes@[0] == (Node::Param { id: 0, initial_value: real_of(init) }),
            e.var_count == 0,
            e.param_count == 1,
            e.display@ == seq!['p', '_', '{', '0', '}'],
            e@ == crate::builder::spec_param(init.bits, init.text@),
            is_tree(e.nodes@),
            params_below(e.nodes@, 1),
            forall|n: nat| crate::render::ops_known(e.nodes@, n),
            forall|names: Seq<Seq<char>>, a: Set<Seq<char>>|
                crate::builder::ops_within(e.nodes@, names, a),
    {
        proof {
            reveal_strlit("p_{0}");
        }
        let mut nodes: Vec<Node> = Vec::new();
        nodes.push(Node::Param { id: 0, initial_value: real_value(init) });
        let e = Expression { nodes, var_count: 0, param_count: 1, display: String::from_str("p_{0}") };
        proof {
            let s = e.nodes@;
            assert(s.drop_last() =~= Seq::<Node>::empty());
            assert(depth(s.drop_last()) == 0);
            assert(balanced(s.drop_last()));
            assert(e@.nodes =~= crate::builder::spec_param(init.bits, init.text@).nodes);
            assert(e@.display =~= crate::builder::spec_param(init.bits, init.text@).display);
            assert(e@ == crate::builder::spec_param(init.bits, init.text@));
        }
        e
    }

    /// Number of input variables the expression may refer to.
    pub fn var_count(&self) -> (r: u8)
        ensures
            r == self.var_count,
    {
        self.var_count
    }

    /// Number of tunable parameters.
    pub fn param_count(&self) -> (r: u8)
        ensures
            r == self.param_count,
    {
        self.param_count
    }

    /// The display string.
    pub fn display(&self) -> (r: &str)
        ensures
            r@ == self.display@,
    {
        self.display.as_str()
    }

    /// Number of nodes.
    pub fn complexity(&self) -> (r: usize)
        ensures
            r == self.nodes@.len(),
    {
        self.nodes.len()
    }

    /// Whether the expression refers to no input variable.
    pub fn is_scalar_only(&self) -> (r: bool)
        ensures
            r == scalar_only(self.nodes@),
    {
        let mut i: usize = 0;
        while i < self.nodes.len()
            invariant
                i <= self.nodes@.len(),
                forall|j: int| 0 <= j < i ==> !(self.nodes@[j] is Var),
            decreases self.nodes@.len() - i,
        {
            if let Node::Var(_) = &self.nodes[i] {
                return false;
            }
            i += 1;
        }
        true
    }

    /// A copy of this expression.
    pub fn duplicate(&self) -> (r: Expression)
        ensures
            r.nodes@ == self.nodes@,
            r.var_count == self.var_count,
            r.param_count == self.param_count,
            r.display@ == self.display@,
    {
        Expression {
            nodes: copy_nodes(self.nodes.as_slice()),
            var_count: self.var_count,
            param_count: self.param_count,
            display: self.display.clone(),
        }
    }
}

} // verus!

verus! {

/// A node as a mathematical value: texts as character sequences.
pub enum NodeView {
    Const(u8),
    Num(u64, Seq<char>),
    Var(u8),
    Param(u8, u64, Seq<char>, u64),
    Op(u8, u8),
}

/// The mathematical value of a node.
pub open spec fn node_view(n: Node) -> NodeView {
    match n {
        Node::Const { op_id } => NodeView::Const(op_id),
        Node::Num(v) => NodeView::Num(v.bits, v.text@),
        Node::Var(i) => NodeView::Var(i),
        Node::Param { id, initial_value } => NodeView::Param(
            id,
            initial_value.re.bits,
            initial_value.re.text@,
            initial_value.im_bits,
        ),
        Node::Op { op_id, arity } => NodeView::Op(op_id, arity),
    }
}

/// The mathematical values of a node sequence.
pub open spec fn nodes_view(s: Seq<Node>) -> Seq<NodeView> {
    s.map_values(|n: Node| node_view(n))
}

/// The IEEE-754 pattern of `1.0`.
pub open spec fn one_bits() -> u64 {
    0x3FF0_0000_0000_0000
}

/// The IEEE-754 pattern of `2.0`.
pub open spec fn two_bits() -> u64 {
    0x4000_0000_0000_0000
}

} // verus!

verus! {

/// An expression as a mathematical value.
pub struct ExprView {
    pub nodes: Seq<NodeView>,
    pub var_count: nat,
    pub param_count: nat,
    pub display: Seq<char>,
}

impl View for Expression {
    type V = ExprView;

    open spec fn view(&self) -> ExprView {
        ExprView {
            nodes: nodes_view(self.nodes@),
            var_count: self.var_count as nat,
            param_count: self.param_count as nat,
            display: self.display@,
        }
    }
}

/// A node value with its parameter id raised by `by`.
pub open spec fn shift_view(n: NodeView, by: nat) -> NodeView {
    match n {
        NodeView::Param(id, b, t, i) => NodeView::Param((id + by) as u8, b, t, i),
        _ => n,
    }
}

/// Node values with every parameter id raised by `by`.
pub open spec fn shift_views(s: Seq<NodeView>, by: nat) -> Seq<NodeView> {
    s.map_values(|n: NodeView| shift_view(n, by))
}

/// Raising parameter ids commutes with taking values.
pub proof fn lemma_shift_view(s: Seq<Node>, by: nat)
    ensures
        nodes_view(shift_nodes(s, by)) == shift_views(nodes_view(s), by),
{
    assert(nodes_view(shift_nodes(s, by)) =~= shift_views(nodes_view(s), by));
}

} // verus!
