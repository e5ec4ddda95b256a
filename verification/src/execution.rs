//! The physical plan: the executable counterpart of the logical tree.
//! Physical expressions reference only variable names — literals were
//! hoisted into the binding environment during lowering — and evaluation
//! is verified against the evaluation model.

use vstd::prelude::*;
use vstd::string::StrSliceExecFns;

use crate::common::EvalError;
use crate::common::EvalErrorKind;
use crate::common::Value;
use crate::common::ValueModel;
use crate::common::VariableName;
use crate::common::Variables;
use crate::common::DataSource;
use crate::common::opt_name_model;
use crate::common::string_eq;
use crate::model::AggregateModel;
use crate::model::ExpressionModel;
use crate::model::FormulaModel;
use crate::model::NamedAggregateModel;
use crate::model::NamedModel;
use crate::model::NodeModel;
use crate::model::OrderingModel;
use crate::model::RelationModel;
use crate::model::compare_values_model;
use crate::model::eval_expr;
use crate::model::eval_formula;
use crate::model::seq_char_lt;

verus! {

/// A physical relation between two expressions.
#[derive(Clone, Copy, Debug, PartialEq, Eq, Structural)]
pub enum Relation {
    Equal,
    NotEqual,
    MoreThan,
    LessThan,
    GreaterEqual,
    LessEqual,
}

impl Relation {
    pub open spec fn model(self) -> RelationModel {
        match self {
            Relation::Equal => RelationModel::Equal,
            Relation::NotEqual => RelationModel::NotEqual,
            Relation::MoreThan => RelationModel::MoreThan,
            Relation::LessThan => RelationModel::LessThan,
            Relation::GreaterEqual => RelationModel::GreaterEqual,
            Relation::LessEqual => RelationModel::LessEqual,
        }
    }
}

/// A physical sort direction.
#[derive(Clone, Copy, Debug, PartialEq, Eq, Structural)]
pub enum Ordering {
    Asc,
    Desc,
}

impl Ordering {
    pub open spec fn model(self) -> OrderingModel {
        match self {
            Ordering::Asc => OrderingModel::Asc,
            Ordering::Desc => OrderingModel::Desc,
        }
    }
}

/// A physical projection item.
#[derive(Debug, PartialEq, Eq)]
pub enum Named {
    Expression(Expression, Option<VariableName>),
    Star,
}

/// A physical expression; it references only variable names.
#[derive(Debug, PartialEq, Eq)]
pub enum Expression {
    Variable(VariableName),
    Logic(Box<Formula>),
    Function(String, Vec<Named>),
}

/// A physical boolean formula.
#[derive(Debug, PartialEq, Eq)]
pub enum Formula {
    And(Box<Formula>, Box<Formula>),
    Or(Box<Formula>, Box<Formula>),
    Not(Box<Formula>),
    Constant(bool),
    Predicate(Relation, Box<Expression>, Box<Expression>),
}

impl Named {
    pub open spec fn model(self) -> NamedModel
        decreases self,
    {
        match self {
            Named::Expression(e, alias) => NamedModel::Expression(e.model(), opt_name_model(alias)),
            Named::Star => NamedModel::Star,
        }
    }
}

impl Expression {
    pub open spec fn model(self) -> ExpressionModel
        decreases self,
    {
        match self {
            Expression::Variable(name) => ExpressionModel::Variable(name@),
            Expression::Logic(f) => ExpressionModel::Logic(Box::new(f.model())),
            Expression::Function(name, args) => ExpressionModel::Function(
                name@,
                named_vec_model(args@),
            ),
        }
    }
}

/// The models of a sequence of physical projection items.
pub open spec fn named_vec_model(s: Seq<Named>) -> Seq<NamedModel>
    decreases s,
{
    if s.len() == 0 {
        Seq::empty()
    } else {
        seq![s[0].model()] + named_vec_model(s.drop_first())
    }
}

/// `named_vec_model` maps the sequence element by element.
pub proof fn lemma_named_vec_model_index(s: Seq<Named>, i: int)
    requires
        0 <= i < s.len(),
    ensures
        named_vec_model(s).len() == s.len(),
        named_vec_model(s)[i] == s[i].model(),
    decreases s.len(),
{
    lemma_named_vec_model_len(s);
    if i > 0 {
        lemma_named_vec_model_index(s.drop_first(), i - 1);
    }
}

pub proof fn lemma_named_vec_model_len(s: Seq<Named>)
    ensures
        named_vec_model(s).len() == s.len(),
    decreases s.len(),
{
    if s.len() > 0 {
        lemma_named_vec_model_len(s.drop_first());
    }
}

impl Formula {
    pub open spec fn model(self) -> FormulaModel
        decreases self,
    {
        match self {
            Formula::And(l, r) => FormulaModel::And(Box::new(l.model()), Box::new(r.model())),
            Formula::Or(l, r) => FormulaModel::Or(Box::new(l.model()), Box::new(r.model())),
            Formula::Not(g) => FormulaModel::Not(Box::new(g.model())),
            Formula::Constant(b) => FormulaModel::Constant(b),
            Formula::Predicate(rel, l, r) => FormulaModel::Predicate(
                rel.model(),
                Box::new(l.model()),
                Box::new(r.model()),
            ),
        }
    }
}

// ---------------------------------------------------------------------------
// Aggregate accumulators, constructed in their zero state by lowering.
// ---------------------------------------------------------------------------
/// Running sum and row count; the average is their quotient.
#[derive(Debug, PartialEq, Eq)]
pub struct AvgAggregate {
    pub sum: i64,
    pub count: i64,
}

impl AvgAggregate {
    pub fn new() -> (r: Self)
        ensures
            r.sum == 0,
            r.count == 0,
    {
        AvgAggregate { sum: 0, count: 0 }
    }
}

/// Counts rows, whatever their values.
#[derive(Debug, PartialEq, Eq)]
pub struct CountAggregate {
    pub count: i64,
}

impl CountAggregate {
    pub fn new() -> (r: Self)
        ensures
            r.count == 0,
    {
        CountAggregate { count: 0 }
    }
}

/// Running sum.
#[derive(Debug, PartialEq, Eq)]
pub struct SumAggregate {
    pub sum: i64,
}

impl SumAggregate {
    pub fn new() -> (r: Self)
        ensures
            r.sum == 0,
    {
        SumAggregate { sum: 0 }
    }
}

/// Keeps the first value seen.
#[derive(Debug, PartialEq, Eq)]
pub struct FirstAggregate {
    pub value: Option<Value>,
}

impl FirstAggregate {
    pub fn new() -> (r: Self)
        ensures
            r.value is None,
    {
        FirstAggregate { value: None }
    }
}

/// Keeps the most recent value seen.
#[derive(Debug, PartialEq, Eq)]
pub struct LastAggregate {
    pub value: Option<Value>,
}

impl LastAggregate {
    pub fn new() -> (r: Self)
        ensures
            r.value is None,
    {
        LastAggregate { value: None }
    }
}

/// Keeps the least value seen, by the kind's total order.
#[derive(Debug, PartialEq, Eq)]
pub struct MinAggregate {
    pub value: Option<Value>,
}

impl MinAggregate {
    pub fn new() -> (r: Self)
        ensures
            r.value is None,
    {
        MinAggregate { value: None }
    }
}

/// Keeps the greatest value seen, by the kind's total order.
#[derive(Debug, PartialEq, Eq)]
pub struct MaxAggregate {
    pub value: Option<Value>,
}

impl MaxAggregate {
    pub fn new() -> (r: Self)
        ensures
            r.value is None,
    {
        MaxAggregate { value: None }
    }
}

/// Counts distinct values. This implementation keeps the distinct values
/// themselves, so its reported count is exact: the approximation error
/// bound is the constant zero, at the price of memory linear in the number
/// of distinct values.
#[derive(Debug, PartialEq, Eq)]
pub struct ApproxCountDistinctAggregate {
    pub seen: Vec<Value>,
}

impl ApproxCountDistinctAggregate {
    pub fn new() -> (r: Self)
        ensures
            r.seen@.len() == 0,
    {
        ApproxCountDistinctAggregate { seen: Vec::new() }
    }
}

/// Exact discrete percentile over a buffered column. The percentile is
/// carried in millionths of one; after sorting the buffered values in the
/// requested direction, the element at rank
/// `ceil(percentile * (n - 1) / 1_000_000)` is selected.
#[derive(Debug, PartialEq, Eq)]
pub struct PercentileDiscAggregate {
    pub percentile_micro: u32,
    pub ordering: Ordering,
    pub values: Vec<Value>,
}

impl PercentileDiscAggregate {
    pub fn new(percentile_micro: u32, ordering: Ordering) -> (r: Self)
        ensures
            r.percentile_micro == percentile_micro,
            r.ordering == ordering,
            r.values@.len() == 0,
    {
        PercentileDiscAggregate { percentile_micro, ordering, values: Vec::new() }
    }
}

/// Streaming percentile. This implementation buffers and answers exactly,
/// so its error bound is the constant zero; the rank rule is the one of
/// [`PercentileDiscAggregate`].
#[derive(Debug, PartialEq, Eq)]
pub struct ApproxPercentileAggregate {
    pub percentile_micro: u32,
    pub ordering: Ordering,
    pub values: Vec<Value>,
}

impl ApproxPercentileAggregate {
    pub fn new(percentile_micro: u32, ordering: Ordering) -> (r: Self)
        ensures
            r.percentile_micro == percentile_micro,
            r.ordering == ordering,
            r.values@.len() == 0,
    {
        ApproxPercentileAggregate { percentile_micro, ordering, values: Vec::new() }
    }
}

/// A physical aggregate: a zero-initialized accumulator paired with the
/// projection item (or target column) it consumes.
#[derive(Debug, PartialEq, Eq)]
pub enum Aggregate {
    Avg(AvgAggregate, Named),
    Count(CountAggregate, Named),
    First(FirstAggregate, Named),
    Last(LastAggregate, Named),
    Max(MaxAggregate, Named),
    Min(MinAggregate, Named),
    Sum(SumAggregate, Named),
    ApproxCountDistinct(ApproxCountDistinctAggregate, Named),
    PercentileDisc(PercentileDiscAggregate, VariableName),
    ApproxPercentile(ApproxPercentileAggregate, VariableName),
}

impl Aggregate {
    pub open spec fn model(self) -> AggregateModel
        decreases self,
    {
        match self {
            Aggregate::Avg(_, n) => AggregateModel::Avg(n.model()),
            Aggregate::Count(_, n) => AggregateModel::Count(n.model()),
            Aggregate::First(_, n) => AggregateModel::First(n.model()),
            Aggregate::Last(_, n) => AggregateModel::Last(n.model()),
            Aggregate::Max(_, n) => AggregateModel::Max(n.model()),
            Aggregate::Min(_, n) => AggregateModel::Min(n.model()),
            Aggregate::Sum(_, n) => AggregateModel::Sum(n.model()),
            Aggregate::ApproxCountDistinct(_, n) => AggregateModel::ApproxCountDistinct(n.model()),
            Aggregate::PercentileDisc(acc, col) => AggregateModel::PercentileDisc(
                acc.percentile_micro as nat,
                col@,
                acc.ordering.model(),
            ),
            Aggregate::ApproxPercentile(acc, col) => AggregateModel::ApproxPercentile(
                acc.percentile_micro as nat,
                col@,
                acc.ordering.model(),
            ),
        }
    }
}

impl Aggregate {
    /// Whether the paired accumulator is in its freshly constructed
    /// zero/identity state, as lowering leaves it.
    pub open spec fn initial(self) -> bool {
        match self {
            Aggregate::Avg(acc, _) => acc.sum == 0 && acc.count == 0,
            Aggregate::Count(acc, _) => acc.count == 0,
            Aggregate::First(acc, _) => acc.value is None,
            Aggregate::Last(acc, _) => acc.value is None,
            Aggregate::Max(acc, _) => acc.value is None,
            Aggregate::Min(acc, _) => acc.value is None,
            Aggregate::Sum(acc, _) => acc.sum == 0,
            Aggregate::ApproxCountDistinct(acc, _) => acc.seen@.len() == 0,
            Aggregate::PercentileDisc(acc, _) => acc.values@.len() == 0,
            Aggregate::ApproxPercentile(acc, _) => acc.values@.len() == 0,
        }
    }
}

/// A physical aggregate with an optional output name.
#[derive(Debug, PartialEq, Eq)]
pub struct NamedAggregate {
    pub aggregate: Aggregate,
    pub name_opt: Option<String>,
}

impl NamedAggregate {
    pub open spec fn model(self) -> NamedAggregateModel {
        NamedAggregateModel { aggregate: self.aggregate.model(), name: opt_name_model(self.name_opt) }
    }

    pub fn new(aggregate: Aggregate, name_opt: Option<String>) -> (r: Self)
        ensures
            r.aggregate == aggregate,
            r.name_opt == name_opt,
    {
        NamedAggregate { aggregate, name_opt }
    }
}

/// The models of a sequence of physical named aggregates.
pub open spec fn named_agg_vec_model(s: Seq<NamedAggregate>) -> Seq<NamedAggregateModel>
    decreases s,
{
    if s.len() == 0 {
        Seq::empty()
    } else {
        seq![s[0].model()] + named_agg_vec_model(s.drop_first())
    }
}

pub proof fn lemma_named_agg_vec_model_index(s: Seq<NamedAggregate>, i: int)
    requires
        0 <= i < s.len(),
    ensures
        named_agg_vec_model(s).len() == s.len(),
        named_agg_vec_model(s)[i] == s[i].model(),
    decreases s.len(),
{
    lemma_named_agg_vec_model_len(s);
    if i > 0 {
        lemma_named_agg_vec_model_index(s.drop_first(), i - 1);
    }
}

pub proof fn lemma_named_agg_vec_model_len(s: Seq<NamedAggregate>)
    ensures
        named_agg_vec_model(s).len() == s.len(),
    decreases s.len(),
{
    if s.len() > 0 {
        lemma_named_agg_vec_model_len(s.drop_first());
    }
}

/// A physical plan node.
#[derive(Debug, PartialEq, Eq)]
pub enum Node {
    DataSource(DataSource, String),
    Filter(Box<Node>, Box<Formula>),
    Project(Vec<Named>, Box<Node>),
    GroupBy(Vec<VariableName>, Vec<NamedAggregate>, Box<Node>),
    Limit(u32, Box<Node>),
    OrderBy(Vec<VariableName>, Vec<Ordering>, Box<Node>),
}

/// Whether every accumulator anywhere in the physical tree is in its
/// freshly constructed zero state.
pub open spec fn node_accumulators_initial(n: Node) -> bool
    decreases n,
{
    match n {
        Node::DataSource(_, _) => true,
        Node::Filter(child, _) => node_accumulators_initial(*child),
        Node::Project(_, child) => node_accumulators_initial(*child),
        Node::GroupBy(_, aggs, child) => node_accumulators_initial(*child) && forall|i: int|
            0 <= i < aggs@.len() ==> (#[trigger] aggs@[i]).aggregate.initial(),
        Node::Limit(_, child) => node_accumulators_initial(*child),
        Node::OrderBy(_, _, child) => node_accumulators_initial(*child),
    }
}

impl Node {
    pub open spec fn model(self) -> NodeModel
        decreases self,
    {
        match self {
            Node::DataSource(ds, name) => NodeModel::DataSource(ds.model(), name@),
            Node::Filter(child, f) => NodeModel::Filter(
                Box::new(f.model()),
                Box::new(child.model()),
            ),
            Node::Project(named, child) => NodeModel::Project(
                named_vec_model(named@),
                Box::new(child.model()),
            ),
            Node::GroupBy(fields, aggs, child) => NodeModel::GroupBy(
                fields.deep_view(),
                named_agg_vec_model(aggs@),
                Box::new(child.model()),
            ),
            Node::Limit(count, child) => NodeModel::Limit(count, Box::new(child.model())),
            Node::OrderBy(fields, ords, child) => NodeModel::OrderBy(
                fields.deep_view(),
                ords@.map_values(|o: Ordering| o.model()),
                Box::new(child.model()),
            ),
        }
    }
}

// ---------------------------------------------------------------------------
// Evaluation.
// ---------------------------------------------------------------------------
/// Whether `a` precedes `b` in lexicographic code-point order.
pub fn str_lt(a: &String, b: &String) -> (r: bool)
    ensures
        r == seq_char_lt(a@, b@),
{
    let alen = a.as_str().unicode_len();
    let blen = b.as_str().unicode_len();
    let mut i: usize = 0;
    proof {
        assert(a@.skip(0) =~= a@);
        assert(b@.skip(0) =~= b@);
    }
    while i < alen && i < blen
        invariant
            i <= alen,
            i <= blen,
            seq_char_lt(a@, b@) == seq_char_lt(a@.skip(i as int), b@.skip(i as int)),
        decreases alen - i,
    {
        let ca = a.as_str().get_char(i);
        let cb = b.as_str().get_char(i);
        if ca != cb {
            proof {
                assert(a@.skip(i as int).first() == a@[i as int]);
                assert(b@.skip(i as int).first() == b@[i as int]);
            }
            return (ca as u32) < (cb as u32);
        }
        proof {
            assert(a@.skip(i as int).drop_first() =~= a@.skip(i + 1));
            assert(b@.skip(i as int).drop_first() =~= b@.skip(i + 1));
        }
        i += 1;
    }
    proof {
        assert(a@.skip(i as int).len() == alen - i);
        assert(b@.skip(i as int).len() == blen - i);
    }
    i < blen
}

/// Applies a relation to two values: total within a kind, a type error
/// across kinds; booleans admit only equality and inequality.
pub fn compare_values(rel: Relation, a: &Value, b: &Value) -> (r: Result<bool, EvalError>)
    ensures
        match r {
            Ok(x) => compare_values_model(rel.model(), a.model(), b.model()) == Ok::<
                bool,
                EvalErrorKind,
            >(x),
            Err(e) => compare_values_model(rel.model(), a.model(), b.model()) == Err::<
                bool,
                EvalErrorKind,
            >(e.kind),
        },
{
    match (a, b) {
        (Value::Int(x), Value::Int(y)) => Ok(
            match rel {
                Relation::Equal => *x == *y,
                Relation::NotEqual => *x != *y,
                Relation::MoreThan => *x > *y,
                Relation::LessThan => *x < *y,
                Relation::GreaterEqual => *x >= *y,
                Relation::LessEqual => *x <= *y,
            },
        ),
        (Value::String(x), Value::String(y)) => Ok(
            match rel {
                Relation::Equal => string_eq(x, y),
                Relation::NotEqual => !string_eq(x, y),
                Relation::MoreThan => str_lt(y, x),
                Relation::LessThan => str_lt(x, y),
                Relation::GreaterEqual => !str_lt(x, y),
                Relation::LessEqual => !str_lt(y, x),
            },
        ),
        (Value::Bool(x), Value::Bool(y)) => match rel {
            Relation::Equal => Ok(*x == *y),
            Relation::NotEqual => Ok(*x != *y),
            _ => Err(EvalError::new(EvalErrorKind::TypeMismatch, "relation undefined on booleans")),
        },
        _ => Err(EvalError::new(EvalErrorKind::TypeMismatch, "values of different kinds")),
    }
}

impl Expression {
    /// The value of this expression under the given environment.
    pub fn expression_value(&self, variables: &Variables) -> (r: Result<Value, EvalError>)
        requires
            variables.wf(),
        ensures
            match r {
                Ok(v) => eval_expr(self.model(), variables.model()) == Ok::<
                    ValueModel,
                    EvalErrorKind,
                >(v.model()),
                Err(e) => eval_expr(self.model(), variables.model()) == Err::<
                    ValueModel,
                    EvalErrorKind,
                >(e.kind),
            },
        decreases self,
    {
        match self {
            Expression::Variable(name) => match variables.get(name) {
                Some(v) => Ok(v.clone()),
                None => Err(
                    EvalError::new(EvalErrorKind::UndefinedVariable, "variable not bound"),
                ),
            },
            Expression::Logic(f) => match f.evaluate(variables) {
                Ok(b) => Ok(Value::Bool(b)),
                Err(e) => Err(e),
            },
            Expression::Function(_, _) => Err(
                EvalError::new(EvalErrorKind::UnknownFunction, "no function library is provided"),
            ),
        }
    }
}

impl Formula {
    /// The truth value of this formula under the given environment.
    pub fn evaluate(&self, variables: &Variables) -> (r: Result<bool, EvalError>)
        requires
            variables.wf(),
        ensures
            match r {
                Ok(b) => eval_formula(self.model(), variables.model()) == Ok::<
                    bool,
                    EvalErrorKind,
                >(b),
                Err(e) => eval_formula(self.model(), variables.model()) == Err::<
                    bool,
                    EvalErrorKind,
                >(e.kind),
            },
        decreases self,
    {
        match self {
            Formula::And(l, r) => {
                let lv = l.evaluate(variables)?;
                let rv = r.evaluate(variables)?;
                Ok(lv && rv)
            },
            Formula::Or(l, r) => {
                let lv = l.evaluate(variables)?;
                let rv = r.evaluate(variables)?;
                Ok(lv || rv)
            },
            Formula::Not(g) => {
                let gv = g.evaluate(variables)?;
                Ok(!gv)
            },
            Formula::Constant(b) => Ok(*b),
            Formula::Predicate(rel, l, r) => {
                let lv = l.expression_value(variables)?;
                let rv = r.expression_value(variables)?;
                compare_values(*rel, &lv, &rv)
            },
        }
    }
}


/// Appending one projection item appends its model.
pub proof fn lemma_named_vec_model_push(s: Seq<Named>, x: Named)
    ensures
        named_vec_model(s.push(x)) == named_vec_model(s) + seq![x.model()],
    decreases s.len(),
{
    reveal_with_fuel(named_vec_model, 2);
    if s.len() == 0 {
        assert(s.push(x)[0] == x);
        assert(s.push(x).drop_first() =~= Seq::<Named>::empty());
        assert(named_vec_model(s.push(x)) =~= named_vec_model(s) + seq![x.model()]);
    } else {
        lemma_named_vec_model_push(s.drop_first(), x);
        assert(s.push(x)[0] == s[0]);
        assert(s.push(x).drop_first() =~= s.drop_first().push(x));
        assert(named_vec_model(s.push(x)) =~= named_vec_model(s) + seq![x.model()]);
    }
}

/// Appending one named aggregate appends its model.
pub proof fn lemma_named_agg_vec_model_push(s: Seq<NamedAggregate>, x: NamedAggregate)
    ensures
        named_agg_vec_model(s.push(x)) == named_agg_vec_model(s) + seq![x.model()],
    decreases s.len(),
{
    reveal_with_fuel(named_agg_vec_model, 2);
    if s.len() == 0 {
        assert(s.push(x)[0] == x);
        assert(s.push(x).drop_first() =~= Seq::<NamedAggregate>::empty());
        assert(named_agg_vec_model(s.push(x)) =~= named_agg_vec_model(s) + seq![x.model()]);
    } else {
        lemma_named_agg_vec_model_push(s.drop_first(), x);
        assert(s.push(x)[0] == s[0]);
        assert(s.push(x).drop_first() =~= s.drop_first().push(x));
        assert(named_agg_vec_model(s.push(x)) =~= named_agg_vec_model(s) + seq![x.model()]);
    }
}

} // verus!
