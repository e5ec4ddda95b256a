//! The logical plan: the algebraic tree a query is expressed in, and its
//! lowering ("physical planning") into an executable physical tree.
//!
//! Lowering is pure and deterministic: each function is proved to compute
//! exactly the corresponding spec transform from `model` on the trees'
//! models, threading the planner's counter monotonically. Every literal is
//! hoisted into the returned binding environment under a fresh synthetic
//! name; the physical tree references only variable names.

use vstd::prelude::*;

use crate::common::DataSource;
use crate::common::Value;
use crate::common::VariableName;
use crate::common::Variables;
use crate::common::clone_opt_name;
use crate::common::empty_variables;
use crate::common::merge;
use crate::common::opt_name_model;
use crate::execution;
use crate::model::AggregateModel;
use crate::model::ExpressionModel;
use crate::model::FormulaModel;
use crate::model::NamedAggregateModel;
use crate::model::NamedModel;
use crate::model::NodeModel;
use crate::model::OrderingModel;
use crate::model::RelationModel;
use crate::model::aggregate_consts;
use crate::model::expr_consts;
use crate::model::formula_consts;
use crate::model::lemma_lower_aggregate_hoists;
use crate::model::lemma_lower_expr_hoists;
use crate::model::lemma_lower_formula_hoists;
use crate::model::lemma_lower_named_agg_seq_hoists;
use crate::model::lemma_lower_named_hoists;
use crate::model::lemma_lower_named_seq_hoists;
use crate::model::lemma_union_assoc;
use crate::model::lemma_union_empty;
use crate::model::lower_aggregate;
use crate::model::lower_expr;
use crate::model::lower_formula;
use crate::model::lower_named;
use crate::model::lower_named_agg;
use crate::model::lower_named_agg_seq;
use crate::model::lower_named_seq;
use crate::model::lower_node;
use crate::model::named_agg_seq_consts;
use crate::model::named_consts;
use crate::model::named_seq_consts;
use crate::model::node_consts;
use crate::names::const_name;

verus! {

/// The failure of a physical-lowering step that cannot produce a valid
/// physical node. `TypeMisMatch` is reserved for relation lowering and is
/// currently unreachable: every relation kind lowers.
#[derive(Clone, Copy, Debug, PartialEq, Eq, Structural)]
pub enum PhysicalPlanError {
    TypeMisMatch,
}

pub type PhysicalResult<T> = Result<T, PhysicalPlanError>;

/// A logical relation between two expressions.
#[derive(Clone, Copy, Debug, PartialEq, Eq, Structural)]
pub enum Relation {
    Equal,
    NotEqual,
    MoreThan,
    LessThan,
    GreaterEqual,
    LessEqual,
}

impl Relation {
    pub open spec fn model(self) -> RelationModel {
        match self {
            Relation::Equal => RelationModel::Equal,
            Relation::NotEqual => RelationModel::NotEqual,
            Relation::MoreThan => RelationModel::MoreThan,
            Relation::LessThan => RelationModel::LessThan,
            Relation::GreaterEqual => RelationModel::GreaterEqual,
            Relation::LessEqual => RelationModel::LessEqual,
        }
    }

    /// Lowers this relation; the mapping is one-to-one and never fails,
    /// but the call is fallible to keep the interface uniform for future
    /// relation kinds.
    pub fn physical(&self) -> (r: PhysicalResult<execution::Relation>)
        ensures
            r matches Ok(rel) && rel.model() == self.model(),
    {
        match self {
            Relation::Equal => Ok(execution::Relation::Equal),
            Relation::NotEqual => Ok(execution::Relation::NotEqual),
            Relation::MoreThan => Ok(execution::Relation::MoreThan),
            Relation::LessThan => Ok(execution::Relation::LessThan),
            Relation::GreaterEqual => Ok(execution::Relation::GreaterEqual),
            Relation::LessEqual => Ok(execution::Relation::LessEqual),
        }
    }
}

/// A logical sort direction.
#[derive(Clone, Copy, Debug, PartialEq, Eq, Structural)]
pub enum Ordering {
    Asc,
    Desc,
}

impl Ordering {
    pub open spec fn model(self) -> OrderingModel {
        match self {
            Ordering::Asc => OrderingModel::Asc,
            Ordering::Desc => OrderingModel::Desc,
        }
    }

    /// Lowers this ordering; the mapping is one-to-one and never fails.
    pub fn physical(&self) -> (r: PhysicalResult<execution::Ordering>)
        ensures
            r matches Ok(o) && o.model() == self.model(),
    {
        match self {
            Ordering::Asc => Ok(execution::Ordering::Asc),
            Ordering::Desc => Ok(execution::Ordering::Desc),
        }
    }
}

/// A logical infix connective.
#[derive(Clone, Copy, Debug, PartialEq, Eq, Structural)]
pub enum LogicInfixOp {
    And,
    Or,
}

/// A logical prefix connective.
#[derive(Clone, Copy, Debug, PartialEq, Eq, Structural)]
pub enum LogicPrefixOp {
    Not,
}

/// A logical projection item.
#[derive(Debug, PartialEq, Eq)]
pub enum Named {
    Expression(Expression, Option<VariableName>),
    Star,
}

/// A logical expression; literals are allowed here and are hoisted away by
/// lowering.
#[derive(Debug, PartialEq, Eq)]
pub enum Expression {
    Constant(Value),
    Variable(VariableName),
    Logic(Box<Formula>),
    Function(String, Vec<Named>),
}

/// A logical boolean formula.
#[derive(Debug, PartialEq, Eq)]
pub enum Formula {
    InfixOperator(LogicInfixOp, Box<Formula>, Box<Formula>),
    PrefixOperator(LogicPrefixOp, Box<Formula>),
    Constant(bool),
    Predicate(Relation, Box<Expression>, Box<Expression>),
}

impl Named {
    pub open spec fn model(self) -> NamedModel
        decreases self,
    {
        match self {
            Named::Expression(e, alias) => NamedModel::Expression(e.model(), opt_name_model(alias)),
            Named::Star => NamedModel::Star,
        }
    }
}

impl Expression {
    pub open spec fn model(self) -> ExpressionModel
        decreases self,
    {
        match self {
            Expression::Constant(v) => ExpressionModel::Constant(v.model()),
            Expression::Variable(name) => ExpressionModel::Variable(name@),
            Expression::Logic(f) => ExpressionModel::Logic(Box::new(f.model())),
            Expression::Function(name, args) => ExpressionModel::Function(
                name@,
                named_vec_model(args@),
            ),
        }
    }
}

/// The models of a sequence of logical projection items.
pub open spec fn named_vec_model(s: Seq<Named>) -> Seq<NamedModel>
    decreases s,
{
    if s.len() == 0 {
        Seq::empty()
    } else {
        seq![s[0].model()] + named_vec_model(s.drop_first())
    }
}

pub proof fn lemma_named_vec_model_index(s: Seq<Named>, i: int)
    requires
        0 <= i < s.len(),
    ensures
        named_vec_model(s).len() == s.len(),
        named_vec_model(s)[i] == s[i].model(),
    decreases s.len(),
{
    lemma_named_vec_model_len(s);
    if i > 0 {
        lemma_named_vec_model_index(s.drop_first(), i - 1);
    }
}

pub proof fn lemma_named_vec_model_len(s: Seq<Named>)
    ensures
        named_vec_model(s).len() == s.len(),
    decreases s.len(),
{
    if s.len() > 0 {
        lemma_named_vec_model_len(s.drop_first());
    }
}

impl Formula {
    pub open spec fn model(self) -> FormulaModel
        decreases self,
    {
        match self {
            Formula::InfixOperator(op, l, r) => match op {
                LogicInfixOp::And => FormulaModel::And(Box::new(l.model()), Box::new(r.model())),
                LogicInfixOp::Or => FormulaModel::Or(Box::new(l.model()), Box::new(r.model())),
            },
            Formula::PrefixOperator(op, g) => match op {
                LogicPrefixOp::Not => FormulaModel::Not(Box::new(g.model())),
            },
            Formula::Constant(b) => FormulaModel::Constant(b),
            Formula::Predicate(rel, l, r) => FormulaModel::Predicate(
                rel.model(),
                Box::new(l.model()),
                Box::new(r.model()),
            ),
        }
    }
}

/// A logical aggregate operator. The percentile aggregates carry the
/// percentile in millionths of one, the target column, and the ordering.
#[derive(Debug, PartialEq, Eq)]
pub enum Aggregate {
    Avg(Named),
    Count(Named),
    First(Named),
    Last(Named),
    Max(Named),
    Min(Named),
    Sum(Named),
    ApproxCountDistinct(Named),
    PercentileDisc(u32, VariableName, Ordering),
    ApproxPercentile(u32, VariableName, Ordering),
}

impl Aggregate {
    pub open spec fn model(self) -> AggregateModel
        decreases self,
    {
        match self {
            Aggregate::Avg(n) => AggregateModel::Avg(n.model()),
            Aggregate::Count(n) => AggregateModel::Count(n.model()),
            Aggregate::First(n) => AggregateModel::First(n.model()),
            Aggregate::Last(n) => AggregateModel::Last(n.model()),
            Aggregate::Max(n) => AggregateModel::Max(n.model()),
            Aggregate::Min(n) => AggregateModel::Min(n.model()),
            Aggregate::Sum(n) => AggregateModel::Sum(n.model()),
            Aggregate::ApproxCountDistinct(n) => AggregateModel::ApproxCountDistinct(n.model()),
            Aggregate::PercentileDisc(p, col, ord) => AggregateModel::PercentileDisc(
                p as nat,
                col@,
                ord.model(),
            ),
            Aggregate::ApproxPercentile(p, col, ord) => AggregateModel::ApproxPercentile(
                p as nat,
                col@,
                ord.model(),
            ),
        }
    }
}

/// A logical aggregate with an optional output name.
#[derive(Debug, PartialEq, Eq)]
pub struct NamedAggregate {
    pub aggregate: Aggregate,
    pub name_opt: Option<String>,
}

impl NamedAggregate {
    pub open spec fn model(self) -> NamedAggregateModel {
        NamedAggregateModel {
            aggregate: self.aggregate.model(),
            name: opt_name_model(self.name_opt),
        }
    }

    pub fn new(aggregate: Aggregate, name_opt: Option<String>) -> (r: Self)
        ensures
            r.aggregate == aggregate,
            r.name_opt == name_opt,
    {
        NamedAggregate { aggregate, name_opt }
    }
}

/// The models of a sequence of logical named aggregates.
pub open spec fn named_agg_vec_model(s: Seq<NamedAggregate>) -> Seq<NamedAggregateModel>
    decreases s,
{
    if s.len() == 0 {
        Seq::empty()
    } else {
        seq![s[0].model()] + named_agg_vec_model(s.drop_first())
    }
}

pub proof fn lemma_named_agg_vec_model_index(s: Seq<NamedAggregate>, i: int)
    requires
        0 <= i < s.len(),
    ensures
        named_agg_vec_model(s).len() == s.len(),
        named_agg_vec_model(s)[i] == s[i].model(),
    decreases s.len(),
{
    lemma_named_agg_vec_model_len(s);
    if i > 0 {
        lemma_named_agg_vec_model_index(s.drop_first(), i - 1);
    }
}

pub proof fn lemma_named_agg_vec_model_len(s: Seq<NamedAggregate>)
    ensures
        named_agg_vec_model(s).len() == s.len(),
    decreases s.len(),
{
    if s.len() > 0 {
        lemma_named_agg_vec_model_len(s.drop_first());
    }
}

/// A logical plan node.
#[derive(Debug, PartialEq, Eq)]
pub enum Node {
    DataSource(DataSource, String),
    Filter(Box<Formula>, Box<Node>),
    Project(Vec<Named>, Box<Node>),
    GroupBy(Vec<VariableName>, Vec<NamedAggregate>, Box<Node>),
    Limit(u32, Box<Node>),
    OrderBy(Vec<VariableName>, Vec<Ordering>, Box<Node>),
}

impl Node {
    pub open spec fn model(self) -> NodeModel
        decreases self,
    {
        match self {
            Node::DataSource(ds, name) => NodeModel::DataSource(ds.model(), name@),
            Node::Filter(f, child) => NodeModel::Filter(
                Box::new(f.model()),
                Box::new(child.model()),
            ),
            Node::Project(named, child) => NodeModel::Project(
                named_vec_model(named@),
                Box::new(child.model()),
            ),
            Node::GroupBy(fields, aggs, child) => NodeModel::GroupBy(
                fields.deep_view(),
                named_agg_vec_model(aggs@),
                Box::new(child.model()),
            ),
            Node::Limit(count, child) => NodeModel::Limit(count, Box::new(child.model())),
            Node::OrderBy(fields, ords, child) => NodeModel::OrderBy(
                fields.deep_view(),
                ords@.map_values(|o: Ordering| o.model()),
                Box::new(child.model()),
            ),
        }
    }
}

/// The single-use counter threaded through one logical-to-physical
/// compilation; each literal receives a distinct synthetic name from it.
#[derive(Debug, PartialEq, Eq)]
pub struct PhysicalPlanCreator {
    pub counter: u32,
    pub data_source: DataSource,
}

impl PhysicalPlanCreator {
    pub fn new(data_source: DataSource) -> (r: Self)
        ensures
            r.counter == 0,
            r.data_source == data_source,
    {
        PhysicalPlanCreator { counter: 0, data_source }
    }

    /// Allocates the next synthetic constant name and advances the counter.
    pub fn new_constant_name(&mut self) -> (r: VariableName)
        requires
            old(self).counter < u32::MAX,
        ensures
            r@ == const_name(old(self).counter as nat),
            final(self).counter == old(self).counter + 1,
            final(self).data_source == old(self).data_source,
    {
        let constant_name = crate::names::render_const_name(self.counter);
        self.counter = self.counter + 1;
        constant_name
    }
}

/// Clones a vector of variable names.
pub fn clone_name_vec(v: &Vec<VariableName>) -> (r: Vec<VariableName>)
    ensures
        r@ == v@,
{
    let mut r: Vec<VariableName> = Vec::new();
    let mut i: usize = 0;
    while i < v.len()
        invariant
            i <= v@.len(),
            r@ =~= v@.take(i as int),
        decreases v@.len() - i,
    {
        r.push(v[i].clone());
        i += 1;
    }
    proof {
        assert(r@ =~= v@);
    }
    r
}

impl Expression {
    /// Lowers this expression. A literal consumes one counter tick and is
    /// returned as a binding under its fresh synthetic name; every other
    /// case recurses, merging bindings left to right.
    pub fn physical(&self, physical_plan_creator: &mut PhysicalPlanCreator) -> (r: PhysicalResult<
        (Box<execution::Expression>, Variables),
    >)
        requires
            old(physical_plan_creator).counter + expr_consts(self.model()).len() <= u32::MAX,
        ensures
            ({
                let (pe, m, c2) = lower_expr(self.model(), old(physical_plan_creator).counter as nat);
                &&& r matches Ok(p)
                &&& p.0.model() == pe
                &&& p.1.wf()
                &&& p.1.model() == m
                &&& final(physical_plan_creator).counter == c2
                &&& final(physical_plan_creator).data_source == old(
                    physical_plan_creator,
                ).data_source
            }),
        decreases self,
    {
        match self {
            Expression::Constant(value) => {
                let constant_name = physical_plan_creator.new_constant_name();
                let node = Box::new(execution::Expression::Variable(constant_name.clone()));
                let mut variables = empty_variables();
                variables.insert(constant_name, value.clone());
                Ok((node, variables))
            },
            Expression::Variable(name) => {
                let node = Box::new(execution::Expression::Variable(name.clone()));
                let variables = empty_variables();
                Ok((node, variables))
            },
            Expression::Logic(formula) => {
                let (expr, variables) = formula.physical(physical_plan_creator)?;
                Ok((Box::new(execution::Expression::Logic(expr)), variables))
            },
            Expression::Function(name, arguments) => {
                let ghost s = named_vec_model(arguments@);
                let ghost c0 = physical_plan_creator.counter as nat;
                let mut physical_args: Vec<execution::Named> = Vec::new();
                let mut variables = empty_variables();
                proof {
                    lemma_named_vec_model_len(arguments@);
                    assert(s.skip(0) =~= s);
                    assert(crate::execution::named_vec_model(physical_args@)
                        =~= Seq::<NamedModel>::empty());
                    assert(Seq::<NamedModel>::empty() + lower_named_seq(s, c0).0
                        =~= lower_named_seq(s, c0).0);
                    lemma_union_empty(lower_named_seq(s, c0).1);
                }
                let mut i: usize = 0;
                while i < arguments.len()
                    invariant
                        i <= arguments@.len(),
                        s.len() == arguments@.len(),
                        variables.wf(),
                        physical_plan_creator.data_source == old(
                            physical_plan_creator,
                        ).data_source,
                        ({
                            let full = lower_named_seq(s, c0);
                            let rest = lower_named_seq(
                                s.skip(i as int),
                                physical_plan_creator.counter as nat,
                            );
                            &&& crate::execution::named_vec_model(physical_args@) + rest.0
                                == full.0
                            &&& variables.model().union_prefer_right(rest.1) == full.1
                            &&& rest.2 == full.2
                        }),
                    decreases arguments@.len() - i,
                {
                    let ghost prevc = physical_plan_creator.counter as nat;
                    proof {
                        lemma_named_vec_model_index(arguments@, i as int);
                        assert(s.skip(i as int)[0] == s[i as int]);
                        assert(s.skip(i as int).drop_first() =~= s.skip(i + 1));
                        lemma_lower_named_hoists(s[i as int], prevc);
                        lemma_lower_named_seq_hoists(s.skip(i + 1), lower_named(s[i as int], prevc).2);
                        lemma_lower_named_seq_hoists(s, c0);
                        lemma_lower_named_seq_hoists(s.skip(i as int), prevc);
                    }
                    let (physical_arg, physical_variables) = (arguments[i].physical(
                        physical_plan_creator,
                    ))?;
                    let ghost args_before = physical_args@;
                    physical_args.push(*physical_arg);
                    let ghost vars_before = variables.model();
                    variables = merge(variables, physical_variables);
                    proof {
                        crate::execution::lemma_named_vec_model_push(args_before, physical_args@.last());
                        assert(physical_args@ =~= args_before.push(physical_args@.last()));
                        let pn = lower_named(s[i as int], prevc).0;
                        let m1 = lower_named(s[i as int], prevc).1;
                        let rest_new = lower_named_seq(
                            s.skip(i + 1),
                            physical_plan_creator.counter as nat,
                        );
                        assert((crate::execution::named_vec_model(args_before) + seq![pn])
                            + rest_new.0 =~= crate::execution::named_vec_model(args_before) + (
                        seq![pn] + rest_new.0));
                        lemma_union_assoc(vars_before, m1, rest_new.1);
                    }
                    i += 1;
                }
                proof {
                    assert(s.skip(arguments@.len() as int) =~= Seq::<NamedModel>::empty());
                    lemma_union_empty(variables.model());
                    assert(crate::execution::named_vec_model(physical_args@) + Seq::<
                        NamedModel,
                    >::empty() =~= crate::execution::named_vec_model(physical_args@));
                }
                Ok((
                    Box::new(execution::Expression::Function(name.clone(), physical_args)),
                    variables,
                ))
            },
        }
    }
}

impl Named {
    /// Lowers this projection item: an expression lowers its inner
    /// expression and keeps its alias unchanged; the wildcard contributes
    /// no bindings.
    pub fn physical(&self, physical_plan_creator: &mut PhysicalPlanCreator) -> (r: PhysicalResult<
        (Box<execution::Named>, Variables),
    >)
        requires
            old(physical_plan_creator).counter + named_consts(self.model()).len() <= u32::MAX,
        ensures
            ({
                let (pn, m, c2) = lower_named(
                    self.model(),
                    old(physical_plan_creator).counter as nat,
                );
                &&& r matches Ok(p)
                &&& p.0.model() == pn
                &&& p.1.wf()
                &&& p.1.model() == m
                &&& final(physical_plan_creator).counter == c2
                &&& final(physical_plan_creator).data_source == old(
                    physical_plan_creator,
                ).data_source
            }),
        decreases self,
    {
        match self {
            Named::Expression(expr, name) => {
                let (physical_expr, expr_variables) = expr.physical(physical_plan_creator)?;
                Ok((
                    Box::new(execution::Named::Expression(*physical_expr, clone_opt_name(name))),
                    expr_variables,
                ))
            },
            Named::Star => Ok((Box::new(execution::Named::Star), empty_variables())),
        }
    }
}

impl Formula {
    /// Lowers this formula, merging each operand's bindings left to right.
    pub fn physical(&self, physical_plan_creator: &mut PhysicalPlanCreator) -> (r: PhysicalResult<
        (Box<execution::Formula>, Variables),
    >)
        requires
            old(physical_plan_creator).counter + formula_consts(self.model()).len() <= u32::MAX,
        ensures
            ({
                let (pf, m, c2) = lower_formula(
                    self.model(),
                    old(physical_plan_creator).counter as nat,
                );
                &&& r matches Ok(p)
                &&& p.0.model() == pf
                &&& p.1.wf()
                &&& p.1.model() == m
                &&& final(physical_plan_creator).counter == c2
                &&& final(physical_plan_creator).data_source == old(
                    physical_plan_creator,
                ).data_source
            }),
        decreases self,
    {
        match self {
            Formula::InfixOperator(op, left_formula, right_formula) => {
                proof {
                    lemma_lower_formula_hoists(left_formula.model(), physical_plan_creator.counter as nat);
                }
                let (left, left_variables) = left_formula.physical(physical_plan_creator)?;
                let (right, right_variables) = right_formula.physical(physical_plan_creator)?;
                let return_variables = merge(left_variables, right_variables);
                match op {
                    LogicInfixOp::And => Ok(
                        (Box::new(execution::Formula::And(left, right)), return_variables),
                    ),
                    LogicInfixOp::Or => Ok(
                        (Box::new(execution::Formula::Or(left, right)), return_variables),
                    ),
                }
            },
            Formula::PrefixOperator(op, child_formula) => match op {
                LogicPrefixOp::Not => {
                    let (child, child_variables) = child_formula.physical(physical_plan_creator)?;
                    Ok((Box::new(execution::Formula::Not(child)), child_variables))
                },
            },
            Formula::Constant(b) => {
                let node = Box::new(execution::Formula::Constant(*b));
                let variables = empty_variables();
                Ok((node, variables))
            },
            Formula::Predicate(relation, left_expr, right_expr) => {
                proof {
                    lemma_lower_expr_hoists(left_expr.model(), physical_plan_creator.counter as nat);
                }
                let (left, left_variables) = left_expr.physical(physical_plan_creator)?;
                let (right, right_variables) = right_expr.physical(physical_plan_creator)?;
                let physical_relation = relation.physical()?;
                let return_variables = merge(left_variables, right_variables);
                Ok((
                    Box::new(
                        execution::Formula::Predicate(physical_relation, left, right),
                    ),
                    return_variables,
                ))
            },
        }
    }
}

impl Aggregate {
    /// Lowers this aggregate: a unary aggregate lowers its operand exactly
    /// as a projection item and pairs it with a freshly constructed,
    /// zero-initialized accumulator; a percentile aggregate lowers its
    /// ordering and bakes the percentile and column into its accumulator,
    /// contributing no bindings.
    pub fn physical(&self, physical_plan_creator: &mut PhysicalPlanCreator) -> (r: PhysicalResult<
        (execution::Aggregate, Variables),
    >)
        requires
            old(physical_plan_creator).counter + aggregate_consts(self.model()).len() <= u32::MAX,
        ensures
            ({
                let (pa, m, c2) = lower_aggregate(
                    self.model(),
                    old(physical_plan_creator).counter as nat,
                );
                &&& r matches Ok(p)
                &&& p.0.model() == pa
                &&& p.0.initial()
                &&& p.1.wf()
                &&& p.1.model() == m
                &&& final(physical_plan_creator).counter == c2
                &&& final(physical_plan_creator).data_source == old(
                    physical_plan_creator,
                ).data_source
            }),
        decreases self,
    {
        match self {
            Aggregate::Avg(named) => {
                let (physical_named, variables) = lower_operand(named, physical_plan_creator)?;
                let avg_aggregate = execution::AvgAggregate::new();
                let aggregate = execution::Aggregate::Avg(avg_aggregate, physical_named);
                Ok((aggregate, variables))
            },
            Aggregate::Count(named) => {
                let (physical_named, variables) = lower_operand(named, physical_plan_creator)?;
                let count_aggregate = execution::CountAggregate::new();
                let aggregate = execution::Aggregate::Count(count_aggregate, physical_named);
                Ok((aggregate, variables))
            },
            Aggregate::Sum(named) => {
                let (physical_named, variables) = lower_operand(named, physical_plan_creator)?;
                let sum_aggregate = execution::SumAggregate::new();
                let aggregate = execution::Aggregate::Sum(sum_aggregate, physical_named);
                Ok((aggregate, variables))
            },
            Aggregate::First(named) => {
                let (physical_named, variables) = lower_operand(named, physical_plan_creator)?;
                let first_aggregate = execution::FirstAggregate::new();
                let aggregate = execution::Aggregate::First(first_aggregate, physical_named);
                Ok((aggregate, variables))
            },
            Aggregate::Last(named) => {
                let (physical_named, variables) = lower_operand(named, physical_plan_creator)?;
                let last_aggregate = execution::LastAggregate::new();
                let aggregate = execution::Aggregate::Last(last_aggregate, physical_named);
                Ok((aggregate, variables))
            },
            Aggregate::Min(named) => {
                let (physical_named, variables) = lower_operand(named, physical_plan_creator)?;
                let min_aggregate = execution::MinAggregate::new();
                let aggregate = execution::Aggregate::Min(min_aggregate, physical_named);
                Ok((aggregate, variables))
            },
            Aggregate::Max(named) => {
                let (physical_named, variables) = lower_operand(named, physical_plan_creator)?;
                let max_aggregate = execution::MaxAggregate::new();
                let aggregate = execution::Aggregate::Max(max_aggregate, physical_named);
                Ok((aggregate, variables))
            },
            Aggregate::ApproxCountDistinct(named) => {
                let (physical_named, variables) = lower_operand(named, physical_plan_creator)?;
                let approx_count_distinct_aggregate =
                    execution::ApproxCountDistinctAggregate::new();
                let aggregate = execution::Aggregate::ApproxCountDistinct(
                    approx_count_distinct_aggregate,
                    physical_named,
                );
                Ok((aggregate, variables))
            },
            Aggregate::PercentileDisc(percentile, column_name, ordering) => {
                let variables = empty_variables();
                let physical_ordering = ordering.physical()?;
                let percentile_disc_aggregate = execution::PercentileDiscAggregate::new(
                    *percentile,
                    physical_ordering,
                );
                let aggregate = execution::Aggregate::PercentileDisc(
                    percentile_disc_aggregate,
                    column_name.clone(),
                );
                Ok((aggregate, variables))
            },
            Aggregate::ApproxPercentile(percentile, column_name, ordering) => {
                let variables = empty_variables();
                let physical_ordering = ordering.physical()?;
                let approx_percentile_aggregate = execution::ApproxPercentileAggregate::new(
                    *percentile,
                    physical_ordering,
                );
                let aggregate = execution::Aggregate::ApproxPercentile(
                    approx_percentile_aggregate,
                    column_name.clone(),
                );
                Ok((aggregate, variables))
            },
        }
    }
}

/// Lowers the operand of a unary aggregate, exactly as a projection item.
fn lower_operand(named: &Named, physical_plan_creator: &mut PhysicalPlanCreator) -> (r:
    PhysicalResult<(execution::Named, Variables)>)
    requires
        old(physical_plan_creator).counter + named_consts(named.model()).len() <= u32::MAX,
    ensures
        ({
            let (pn, m, c2) = lower_named(named.model(), old(physical_plan_creator).counter as nat);
            &&& r matches Ok(p)
            &&& p.0.model() == pn
            &&& p.1.wf()
            &&& p.1.model() == m
            &&& final(physical_plan_creator).counter == c2
            &&& final(physical_plan_creator).data_source == old(physical_plan_creator).data_source
        }),
{
    match named {
        Named::Expression(expr, name) => {
            let (physical_expr, expr_variables) = expr.physical(physical_plan_creator)?;
            Ok((execution::Named::Expression(*physical_expr, clone_opt_name(name)), expr_variables))
        },
        Named::Star => Ok((execution::Named::Star, empty_variables())),
    }
}

impl NamedAggregate {
    /// Lowers this named aggregate, keeping its output name unchanged.
    pub fn physical(&self, physical_plan_creator: &mut PhysicalPlanCreator) -> (r: PhysicalResult<
        (execution::NamedAggregate, Variables),
    >)
        requires
            old(physical_plan_creator).counter + aggregate_consts(self.aggregate.model()).len()
                <= u32::MAX,
        ensures
            ({
                let (pn, m, c2) = lower_named_agg(
                    self.model(),
                    old(physical_plan_creator).counter as nat,
                );
                &&& r matches Ok(p)
                &&& p.0.model() == pn
                &&& p.0.aggregate.initial()
                &&& p.1.wf()
                &&& p.1.model() == m
                &&& final(physical_plan_creator).counter == c2
                &&& final(physical_plan_creator).data_source == old(
                    physical_plan_creator,
                ).data_source
            }),
    {
        let (physical_aggregate, expr_variables) = self.aggregate.physical(physical_plan_creator)?;
        Ok((
            execution::NamedAggregate::new(physical_aggregate, clone_opt_name(&self.name_opt)),
            expr_variables,
        ))
    }
}


impl Node {
    /// Lowers this plan node, merging each part's bindings in the fixed
    /// left-to-right order: a node's own formula, projection items or
    /// aggregates first, then its child, whose bindings take precedence on
    /// a name collision.
    pub fn physical(&self, physical_plan_creator: &mut PhysicalPlanCreator) -> (r: PhysicalResult<
        (Box<execution::Node>, Variables),
    >)
        requires
            old(physical_plan_creator).counter + node_consts(self.model()).len() <= u32::MAX,
        ensures
            ({
                let (pn, m, c2) = lower_node(self.model(), old(physical_plan_creator).counter as nat);
                &&& r matches Ok(p)
                &&& p.0.model() == pn
                &&& crate::execution::node_accumulators_initial(*p.0)
                &&& p.1.wf()
                &&& p.1.model() == m
                &&& final(physical_plan_creator).counter == c2
                &&& final(physical_plan_creator).data_source == old(
                    physical_plan_creator,
                ).data_source
            }),
        decreases self,
    {
        match self {
            Node::DataSource(data_source, table_name) => {
                let node = execution::Node::DataSource(data_source.clone(), table_name.clone());
                let variables = empty_variables();
                Ok((Box::new(node), variables))
            },
            Node::Filter(formula, source) => {
                proof {
                    lemma_lower_formula_hoists(
                        formula.model(),
                        physical_plan_creator.counter as nat,
                    );
                }
                let (physical_formula, formula_variables) = formula.physical(
                    physical_plan_creator,
                )?;
                let (child, child_variables) = source.physical(physical_plan_creator)?;
                let return_variables = merge(formula_variables, child_variables);
                let filter = execution::Node::Filter(child, physical_formula);
                Ok((Box::new(filter), return_variables))
            },
            Node::Project(expressions, source) => {
                let ghost s = named_vec_model(expressions@);
                let ghost c0 = physical_plan_creator.counter as nat;
                let mut physical_expressions: Vec<execution::Named> = Vec::new();
                let mut total_expression_variables = empty_variables();
                proof {
                    lemma_named_vec_model_len(expressions@);
                    assert(s.skip(0) =~= s);
                    assert(crate::execution::named_vec_model(physical_expressions@) =~= Seq::<
                        NamedModel,
                    >::empty());
                    assert(Seq::<NamedModel>::empty() + lower_named_seq(s, c0).0
                        =~= lower_named_seq(s, c0).0);
                    lemma_union_empty(lower_named_seq(s, c0).1);
                    lemma_lower_named_seq_hoists(s, c0);
                }
                let mut i: usize = 0;
                while i < expressions.len()
                    invariant
                        i <= expressions@.len(),
                        s.len() == expressions@.len(),
                        total_expression_variables.wf(),
                        physical_plan_creator.data_source == old(
                            physical_plan_creator,
                        ).data_source,
                        ({
                            let full = lower_named_seq(s, c0);
                            let rest = lower_named_seq(
                                s.skip(i as int),
                                physical_plan_creator.counter as nat,
                            );
                            &&& crate::execution::named_vec_model(physical_expressions@) + rest.0
                                == full.0
                            &&& total_expression_variables.model().union_prefer_right(rest.1)
                                == full.1
                            &&& rest.2 == full.2
                        }),
                    decreases expressions@.len() - i,
                {
                    let ghost prevc = physical_plan_creator.counter as nat;
                    proof {
                        lemma_named_vec_model_index(expressions@, i as int);
                        assert(s.skip(i as int)[0] == s[i as int]);
                        assert(s.skip(i as int).drop_first() =~= s.skip(i + 1));
                        lemma_lower_named_hoists(s[i as int], prevc);
                        lemma_lower_named_seq_hoists(
                            s.skip(i + 1),
                            lower_named(s[i as int], prevc).2,
                        );
                        lemma_lower_named_seq_hoists(s, c0);
                        lemma_lower_named_seq_hoists(s.skip(i as int), prevc);
                    }
                    let (physical_expression, expression_variables) = (expressions[i].physical(
                        physical_plan_creator,
                    ))?;
                    let ghost args_before = physical_expressions@;
                    physical_expressions.push(*physical_expression);
                    let ghost vars_before = total_expression_variables.model();
                    total_expression_variables = merge(
                        total_expression_variables,
                        expression_variables,
                    );
                    proof {
                        crate::execution::lemma_named_vec_model_push(
                            args_before,
                            physical_expressions@.last(),
                        );
                        assert(physical_expressions@ =~= args_before.push(
                            physical_expressions@.last(),
                        ));
                        let pn = lower_named(s[i as int], prevc).0;
                        let m1 = lower_named(s[i as int], prevc).1;
                        let rest_new = lower_named_seq(
                            s.skip(i + 1),
                            physical_plan_creator.counter as nat,
                        );
                        assert((crate::execution::named_vec_model(args_before) + seq![pn])
                            + rest_new.0 =~= crate::execution::named_vec_model(args_before) + (
                        seq![pn] + rest_new.0));
                        lemma_union_assoc(vars_before, m1, rest_new.1);
                    }
                    i += 1;
                }
                proof {
                    assert(s.skip(expressions@.len() as int) =~= Seq::<NamedModel>::empty());
                    lemma_union_empty(total_expression_variables.model());
                    assert(crate::execution::named_vec_model(physical_expressions@) + Seq::<
                        NamedModel,
                    >::empty() =~= crate::execution::named_vec_model(physical_expressions@));
                    lemma_lower_named_seq_hoists(s, c0);
                }
                let (child, child_variables) = source.physical(physical_plan_creator)?;
                let return_variables = merge(total_expression_variables, child_variables);
                let node = execution::Node::Project(physical_expressions, child);
                Ok((Box::new(node), return_variables))
            },
            Node::GroupBy(fields, named_aggergates, source) => {
                let ghost s = named_agg_vec_model(named_aggergates@);
                let ghost c0 = physical_plan_creator.counter as nat;
                let mut physical_aggregates: Vec<execution::NamedAggregate> = Vec::new();
                let mut variables = empty_variables();
                proof {
                    lemma_named_agg_vec_model_len(named_aggergates@);
                    assert(s.skip(0) =~= s);
                    assert(crate::execution::named_agg_vec_model(physical_aggregates@) =~= Seq::<
                        NamedAggregateModel,
                    >::empty());
                    assert(Seq::<NamedAggregateModel>::empty() + lower_named_agg_seq(s, c0).0
                        =~= lower_named_agg_seq(s, c0).0);
                    lemma_union_empty(lower_named_agg_seq(s, c0).1);
                    lemma_lower_named_agg_seq_hoists(s, c0);
                }
                let mut i: usize = 0;
                while i < named_aggergates.len()
                    invariant
                        i <= named_aggergates@.len(),
                        s.len() == named_aggergates@.len(),
                        variables.wf(),
                        physical_plan_creator.data_source == old(
                            physical_plan_creator,
                        ).data_source,
                        forall|j: int|
                            0 <= j < physical_aggregates@.len() ==> (#[trigger] physical_aggregates@[
                                j
                            ]).aggregate.initial(),
                        ({
                            let full = lower_named_agg_seq(s, c0);
                            let rest = lower_named_agg_seq(
                                s.skip(i as int),
                                physical_plan_creator.counter as nat,
                            );
                            &&& crate::execution::named_agg_vec_model(physical_aggregates@)
                                + rest.0 == full.0
                            &&& variables.model().union_prefer_right(rest.1) == full.1
                            &&& rest.2 == full.2
                        }),
                    decreases named_aggergates@.len() - i,
                {
                    let ghost prevc = physical_plan_creator.counter as nat;
                    proof {
                        lemma_named_agg_vec_model_index(named_aggergates@, i as int);
                        assert(s.skip(i as int)[0] == s[i as int]);
                        assert(s.skip(i as int).drop_first() =~= s.skip(i + 1));
                        lemma_lower_aggregate_hoists(s[i as int].aggregate, prevc);
                        lemma_lower_named_agg_seq_hoists(
                            s.skip(i + 1),
                            lower_named_agg(s[i as int], prevc).2,
                        );
                        lemma_lower_named_agg_seq_hoists(s, c0);
                        lemma_lower_named_agg_seq_hoists(s.skip(i as int), prevc);
                    }
                    let (physical_aggregate, aggregate_variables) = (named_aggergates[i].physical(
                        physical_plan_creator,
                    ))?;
                    let ghost aggs_before = physical_aggregates@;
                    physical_aggregates.push(physical_aggregate);
                    let ghost vars_before = variables.model();
                    variables = merge(variables, aggregate_variables);
                    proof {
                        crate::execution::lemma_named_agg_vec_model_push(
                            aggs_before,
                            physical_aggregates@.last(),
                        );
                        assert(physical_aggregates@ =~= aggs_before.push(
                            physical_aggregates@.last(),
                        ));
                        let pn = lower_named_agg(s[i as int], prevc).0;
                        let m1 = lower_named_agg(s[i as int], prevc).1;
                        let rest_new = lower_named_agg_seq(
                            s.skip(i + 1),
                            physical_plan_creator.counter as nat,
                        );
                        assert((crate::execution::named_agg_vec_model(aggs_before) + seq![pn])
                            + rest_new.0 =~= crate::execution::named_agg_vec_model(aggs_before) + (
                        seq![pn] + rest_new.0));
                        lemma_union_assoc(vars_before, m1, rest_new.1);
                    }
                    i += 1;
                }
                proof {
                    assert(s.skip(named_aggergates@.len() as int) =~= Seq::<
                        NamedAggregateModel,
                    >::empty());
                    lemma_union_empty(variables.model());
                    assert(crate::execution::named_agg_vec_model(physical_aggregates@) + Seq::<
                        NamedAggregateModel,
                    >::empty() =~= crate::execution::named_agg_vec_model(physical_aggregates@));
                    lemma_lower_named_agg_seq_hoists(s, c0);
                }
                let (child, child_variables) = source.physical(physical_plan_creator)?;
                let return_variables = merge(variables, child_variables);
                let fields_clone = clone_name_vec(fields);
                proof {
                    assert(fields_clone.deep_view() =~= fields.deep_view());
                }
                let node = execution::Node::GroupBy(fields_clone, physical_aggregates, child);
                Ok((Box::new(node), return_variables))
            },
            Node::Limit(row_count, source) => {
                let variables = empty_variables();
                let (child, child_variables) = source.physical(physical_plan_creator)?;
                let return_variables = merge(variables, child_variables);
                proof {
                    lemma_union_empty(child_variables.model());
                }
                let node = execution::Node::Limit(*row_count, child);
                Ok((Box::new(node), return_variables))
            },
            Node::OrderBy(column_names, orderings, source) => {
                let variables = empty_variables();
                let (child, child_variables) = source.physical(physical_plan_creator)?;
                let return_variables = merge(variables, child_variables);
                proof {
                    lemma_union_empty(child_variables.model());
                }
                let mut physical_orderings: Vec<execution::Ordering> = Vec::new();
                let mut i: usize = 0;
                while i < orderings.len()
                    invariant
                        i <= orderings@.len(),
                        physical_orderings@.len() == i,
                        forall|j: int|
                            0 <= j < i ==> physical_orderings@[j].model() == orderings@[j].model(),
                    decreases orderings@.len() - i,
                {
                    let physical_ordering = (orderings[i].physical())?;
                    physical_orderings.push(physical_ordering);
                    i += 1;
                }
                proof {
                    assert(physical_orderings@.map_values(|o: execution::Ordering| o.model())
                        =~= orderings@.map_values(|o: Ordering| o.model()));
                }
                let fields_clone = clone_name_vec(column_names);
                proof {
                    assert(fields_clone.deep_view() =~= column_names.deep_view());
                }
                let node = execution::Node::OrderBy(fields_clone, physical_orderings, child);
                Ok((Box::new(node), return_variables))
            },
        }
    }
}

} // verus!
