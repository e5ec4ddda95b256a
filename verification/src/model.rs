//! Mathematical models of the plan trees, the lowering transform, and
//! expression evaluation.
//!
//! Both the logical and the physical plan types denote values of the ghost
//! tree types below; the lowering functions in `logical` are proved to
//! compute exactly [`lower_node`] on those models, which makes lowering
//! deterministic by construction, and the constant-hoisting laws at the end
//! of this module describe the binding environment it returns.

use vstd::prelude::*;

use crate::common::DataSourceModel;
use crate::common::EvalErrorKind;
use crate::common::ValueModel;
use crate::names::const_name;

verus! {

/// A relation between two values, shared by the logical and physical trees.
pub ghost enum RelationModel {
    Equal,
    NotEqual,
    MoreThan,
    LessThan,
    GreaterEqual,
    LessEqual,
}

/// A sort direction, shared by the logical and physical trees.
pub ghost enum OrderingModel {
    Asc,
    Desc,
}

/// A named projection item: an expression with an optional alias, or the
/// wildcard that passes every field of the child record through.
pub ghost enum NamedModel {
    Expression(ExpressionModel, Option<Seq<char>>),
    Star,
}

/// An expression tree. A lowered (physical) tree never contains
/// `Constant`: literals are hoisted into the binding environment.
pub ghost enum ExpressionModel {
    Constant(ValueModel),
    Variable(Seq<char>),
    Logic(Box<FormulaModel>),
    Function(Seq<char>, Seq<NamedModel>),
}

/// A boolean formula tree.
pub ghost enum FormulaModel {
    And(Box<FormulaModel>, Box<FormulaModel>),
    Or(Box<FormulaModel>, Box<FormulaModel>),
    Not(Box<FormulaModel>),
    Constant(bool),
    Predicate(RelationModel, Box<ExpressionModel>, Box<ExpressionModel>),
}

/// An aggregate operator. The percentile aggregates carry the percentile
/// in millionths of one, the target column, and the sort direction.
pub ghost enum AggregateModel {
    Avg(NamedModel),
    Count(NamedModel),
    First(NamedModel),
    Last(NamedModel),
    Max(NamedModel),
    Min(NamedModel),
    Sum(NamedModel),
    ApproxCountDistinct(NamedModel),
    PercentileDisc(nat, Seq<char>, OrderingModel),
    ApproxPercentile(nat, Seq<char>, OrderingModel),
}

/// An aggregate with an optional output name.
pub ghost struct NamedAggregateModel {
    pub aggregate: AggregateModel,
    pub name: Option<Seq<char>>,
}

/// A plan tree node.
pub ghost enum NodeModel {
    DataSource(DataSourceModel, Seq<char>),
    Filter(Box<FormulaModel>, Box<NodeModel>),
    Project(Seq<NamedModel>, Box<NodeModel>),
    GroupBy(Seq<Seq<char>>, Seq<NamedAggregateModel>, Box<NodeModel>),
    Limit(u32, Box<NodeModel>),
    OrderBy(Seq<Seq<char>>, Seq<OrderingModel>, Box<NodeModel>),
}

/// The binding environment.
pub type EnvModel = Map<Seq<char>, ValueModel>;

// ---------------------------------------------------------------------------
// The literals of a tree, in left-to-right depth-first order.
// ---------------------------------------------------------------------------
pub open spec fn expr_consts(e: ExpressionModel) -> Seq<ValueModel>
    decreases e,
{
    match e {
        ExpressionModel::Constant(v) => seq![v],
        ExpressionModel::Variable(_) => Seq::empty(),
        ExpressionModel::Logic(f) => formula_consts(*f),
        ExpressionModel::Function(_, args) => named_seq_consts(args),
    }
}

pub open spec fn named_consts(n: NamedModel) -> Seq<ValueModel>
    decreases n,
{
    match n {
        NamedModel::Expression(e, _) => expr_consts(e),
        NamedModel::Star => Seq::empty(),
    }
}

pub open spec fn named_seq_consts(s: Seq<NamedModel>) -> Seq<ValueModel>
    decreases s,
{
    if s.len() == 0 {
        Seq::empty()
    } else {
        named_consts(s[0]) + named_seq_consts(s.drop_first())
    }
}

pub open spec fn formula_consts(f: FormulaModel) -> Seq<ValueModel>
    decreases f,
{
    match f {
        FormulaModel::And(l, r) => formula_consts(*l) + formula_consts(*r),
        FormulaModel::Or(l, r) => formula_consts(*l) + formula_consts(*r),
        FormulaModel::Not(g) => formula_consts(*g),
        FormulaModel::Constant(_) => Seq::empty(),
        FormulaModel::Predicate(_, l, r) => expr_consts(*l) + expr_consts(*r),
    }
}

pub open spec fn aggregate_consts(a: AggregateModel) -> Seq<ValueModel>
    decreases a,
{
    match a {
        AggregateModel::Avg(n) => named_consts(n),
        AggregateModel::Count(n) => named_consts(n),
        AggregateModel::First(n) => named_consts(n),
        AggregateModel::Last(n) => named_consts(n),
        AggregateModel::Max(n) => named_consts(n),
        AggregateModel::Min(n) => named_consts(n),
        AggregateModel::Sum(n) => named_consts(n),
        AggregateModel::ApproxCountDistinct(n) => named_consts(n),
        AggregateModel::PercentileDisc(_, _, _) => Seq::empty(),
        AggregateModel::ApproxPercentile(_, _, _) => Seq::empty(),
    }
}

pub open spec fn named_agg_seq_consts(s: Seq<NamedAggregateModel>) -> Seq<ValueModel>
    decreases s,
{
    if s.len() == 0 {
        Seq::empty()
    } else {
        aggregate_consts(s[0].aggregate) + named_agg_seq_consts(s.drop_first())
    }
}

pub open spec fn node_consts(n: NodeModel) -> Seq<ValueModel>
    decreases n,
{
    match n {
        NodeModel::DataSource(_, _) => Seq::empty(),
        NodeModel::Filter(f, child) => formula_consts(*f) + node_consts(*child),
        NodeModel::Project(named, child) => named_seq_consts(named) + node_consts(*child),
        NodeModel::GroupBy(_, aggs, child) => named_agg_seq_consts(aggs) + node_consts(*child),
        NodeModel::Limit(_, child) => node_consts(*child),
        NodeModel::OrderBy(_, _, child) => node_consts(*child),
    }
}

// ---------------------------------------------------------------------------
// Lowering: the pure transform from a logical tree and a counter to the
// physical tree, the hoisted bindings, and the counter after.
// ---------------------------------------------------------------------------
pub open spec fn lower_expr(e: ExpressionModel, c: nat) -> (ExpressionModel, EnvModel, nat)
    decreases e,
{
    match e {
        ExpressionModel::Constant(v) => (
            ExpressionModel::Variable(const_name(c)),
            Map::empty().insert(const_name(c), v),
            c + 1,
        ),
        ExpressionModel::Variable(name) => (ExpressionModel::Variable(name), Map::empty(), c),
        ExpressionModel::Logic(f) => {
            let (pf, m, c2) = lower_formula(*f, c);
            (ExpressionModel::Logic(Box::new(pf)), m, c2)
        },
        ExpressionModel::Function(name, args) => {
            let (pargs, m, c2) = lower_named_seq(args, c);
            (ExpressionModel::Function(name, pargs), m, c2)
        },
    }
}

pub open spec fn lower_named(n: NamedModel, c: nat) -> (NamedModel, EnvModel, nat)
    decreases n,
{
    match n {
        NamedModel::Expression(e, alias) => {
            let (pe, m, c2) = lower_expr(e, c);
            (NamedModel::Expression(pe, alias), m, c2)
        },
        NamedModel::Star => (NamedModel::Star, Map::empty(), c),
    }
}

pub open spec fn lower_named_seq(s: Seq<NamedModel>, c: nat) -> (Seq<NamedModel>, EnvModel, nat)
    decreases s,
{
    if s.len() == 0 {
        (Seq::empty(), Map::empty(), c)
    } else {
        let (pn, m1, c1) = lower_named(s[0], c);
        let (rest, m2, c2) = lower_named_seq(s.drop_first(), c1);
        (seq![pn] + rest, m1.union_prefer_right(m2), c2)
    }
}

pub open spec fn lower_formula(f: FormulaModel, c: nat) -> (FormulaModel, EnvModel, nat)
    decreases f,
{
    match f {
        FormulaModel::And(l, r) => {
            let (pl, m1, c1) = lower_formula(*l, c);
            let (pr, m2, c2) = lower_formula(*r, c1);
            (FormulaModel::And(Box::new(pl), Box::new(pr)), m1.union_prefer_right(m2), c2)
        },
        FormulaModel::Or(l, r) => {
            let (pl, m1, c1) = lower_formula(*l, c);
            let (pr, m2, c2) = lower_formula(*r, c1);
            (FormulaModel::Or(Box::new(pl), Box::new(pr)), m1.union_prefer_right(m2), c2)
        },
        FormulaModel::Not(g) => {
            let (pg, m, c2) = lower_formula(*g, c);
            (FormulaModel::Not(Box::new(pg)), m, c2)
        },
        FormulaModel::Constant(b) => (FormulaModel::Constant(b), Map::empty(), c),
        FormulaModel::Predicate(rel, l, r) => {
            let (pl, m1, c1) = lower_expr(*l, c);
            let (pr, m2, c2) = lower_expr(*r, c1);
            (
                FormulaModel::Predicate(rel, Box::new(pl), Box::new(pr)),
                m1.union_prefer_right(m2),
                c2,
            )
        },
    }
}

pub open spec fn lower_aggregate(a: AggregateModel, c: nat) -> (AggregateModel, EnvModel, nat)
    decreases a,
{
    match a {
        AggregateModel::Avg(n) => {
            let (pn, m, c2) = lower_named(n, c);
            (AggregateModel::Avg(pn), m, c2)
        },
        AggregateModel::Count(n) => {
            let (pn, m, c2) = lower_named(n, c);
            (AggregateModel::Count(pn), m, c2)
        },
        AggregateModel::First(n) => {
            let (pn, m, c2) = lower_named(n, c);
            (AggregateModel::First(pn), m, c2)
        },
        AggregateModel::Last(n) => {
            let (pn, m, c2) = lower_named(n, c);
            (AggregateModel::Last(pn), m, c2)
        },
        AggregateModel::Max(n) => {
            let (pn, m, c2) = lower_named(n, c);
            (AggregateModel::Max(pn), m, c2)
        },
        AggregateModel::Min(n) => {
            let (pn, m, c2) = lower_named(n, c);
            (AggregateModel::Min(pn), m, c2)
        },
        AggregateModel::Sum(n) => {
            let (pn, m, c2) = lower_named(n, c);
            (AggregateModel::Sum(pn), m, c2)
        },
        AggregateModel::ApproxCountDistinct(n) => {
            let (pn, m, c2) = lower_named(n, c);
            (AggregateModel::ApproxCountDistinct(pn), m, c2)
        },
        AggregateModel::PercentileDisc(p, col, ord) => (
            AggregateModel::PercentileDisc(p, col, ord),
            Map::empty(),
            c,
        ),
        AggregateModel::ApproxPercentile(p, col, ord) => (
            AggregateModel::ApproxPercentile(p, col, ord),
            Map::empty(),
            c,
        ),
    }
}

pub open spec fn lower_named_agg(n: NamedAggregateModel, c: nat) -> (
    NamedAggregateModel,
    EnvModel,
    nat,
)
    decreases n,
{
    let (pa, m, c2) = lower_aggregate(n.aggregate, c);
    (NamedAggregateModel { aggregate: pa, name: n.name }, m, c2)
}

pub open spec fn lower_named_agg_seq(s: Seq<NamedAggregateModel>, c: nat) -> (
    Seq<NamedAggregateModel>,
    EnvModel,
    nat,
)
    decreases s,
{
    if s.len() == 0 {
        (Seq::empty(), Map::empty(), c)
    } else {
        let (pn, m1, c1) = lower_named_agg(s[0], c);
        let (rest, m2, c2) = lower_named_agg_seq(s.drop_first(), c1);
        (seq![pn] + rest, m1.union_prefer_right(m2), c2)
    }
}

pub open spec fn lower_ordering_seq(s: Seq<OrderingModel>) -> Seq<OrderingModel> {
    s
}

pub open spec fn lower_node(n: NodeModel, c: nat) -> (NodeModel, EnvModel, nat)
    decreases n,
{
    match n {
        NodeModel::DataSource(ds, name) => (NodeModel::DataSource(ds, name), Map::empty(), c),
        NodeModel::Filter(f, child) => {
            let (pf, m1, c1) = lower_formula(*f, c);
            let (pchild, m2, c2) = lower_node(*child, c1);
            (
                NodeModel::Filter(Box::new(pf), Box::new(pchild)),
                m1.union_prefer_right(m2),
                c2,
            )
        },
        NodeModel::Project(named, child) => {
            let (pnamed, m1, c1) = lower_named_seq(named, c);
            let (pchild, m2, c2) = lower_node(*child, c1);
            (NodeModel::Project(pnamed, Box::new(pchild)), m1.union_prefer_right(m2), c2)
        },
        NodeModel::GroupBy(fields, aggs, child) => {
            let (paggs, m1, c1) = lower_named_agg_seq(aggs, c);
            let (pchild, m2, c2) = lower_node(*child, c1);
            (
                NodeModel::GroupBy(fields, paggs, Box::new(pchild)),
                m1.union_prefer_right(m2),
                c2,
            )
        },
        NodeModel::Limit(count, child) => {
            let (pchild, m2, c2) = lower_node(*child, c);
            (NodeModel::Limit(count, Box::new(pchild)), m2, c2)
        },
        NodeModel::OrderBy(fields, ords, child) => {
            let (pchild, m2, c2) = lower_node(*child, c);
            (
                NodeModel::OrderBy(fields, lower_ordering_seq(ords), Box::new(pchild)),
                m2,
                c2,
            )
        },
    }
}

// ---------------------------------------------------------------------------
// Absence of literals in lowered trees.
// ---------------------------------------------------------------------------
pub open spec fn expr_no_constant(e: ExpressionModel) -> bool
    decreases e,
{
    match e {
        ExpressionModel::Constant(_) => false,
        ExpressionModel::Variable(_) => true,
        ExpressionModel::Logic(f) => formula_no_constant(*f),
        ExpressionModel::Function(_, args) => named_seq_no_constant(args),
    }
}

pub open spec fn named_no_constant(n: NamedModel) -> bool
    decreases n,
{
    match n {
        NamedModel::Expression(e, _) => expr_no_constant(e),
        NamedModel::Star => true,
    }
}

pub open spec fn named_seq_no_constant(s: Seq<NamedModel>) -> bool
    decreases s,
{
    if s.len() == 0 {
        true
    } else {
        named_no_constant(s[0]) && named_seq_no_constant(s.drop_first())
    }
}

pub open spec fn formula_no_constant(f: FormulaModel) -> bool
    decreases f,
{
    match f {
        FormulaModel::And(l, r) => formula_no_constant(*l) && formula_no_constant(*r),
        FormulaModel::Or(l, r) => formula_no_constant(*l) && formula_no_constant(*r),
        FormulaModel::Not(g) => formula_no_constant(*g),
        FormulaModel::Constant(_) => true,
        FormulaModel::Predicate(_, l, r) => expr_no_constant(*l) && expr_no_constant(*r),
    }
}

// ---------------------------------------------------------------------------
// The environment of hoisted constants.
// ---------------------------------------------------------------------------
/// The bindings produced by hoisting `vals`, in order, starting at counter
/// value `c`: value `vals[i]` is bound to `const_name(c + i)`.
pub open spec fn hoisted_bindings(c: nat, vals: Seq<ValueModel>) -> EnvModel
    decreases vals.len(),
{
    if vals.len() == 0 {
        Map::empty()
    } else {
        hoisted_bindings(c, vals.drop_last()).insert(
            const_name((c + vals.len() - 1) as nat),
            vals.last(),
        )
    }
}

/// Preferring the right map distributes over inserting into it.
proof fn lemma_union_insert(a: EnvModel, b: EnvModel, k: Seq<char>, v: ValueModel)
    ensures
        a.union_prefer_right(b.insert(k, v)) == a.union_prefer_right(b).insert(k, v),
{
    assert(a.union_prefer_right(b.insert(k, v)) =~= a.union_prefer_right(b).insert(k, v));
}

/// Preferring the right map is associative.
pub proof fn lemma_union_assoc(a: EnvModel, b: EnvModel, c: EnvModel)
    ensures
        a.union_prefer_right(b).union_prefer_right(c) == a.union_prefer_right(
            b.union_prefer_right(c),
        ),
{
    assert(a.union_prefer_right(b).union_prefer_right(c) =~= a.union_prefer_right(
        b.union_prefer_right(c),
    ));
}

/// An empty right side changes nothing.
pub proof fn lemma_union_empty(a: EnvModel)
    ensures
        a.union_prefer_right(Map::empty()) == a,
        Map::empty().union_prefer_right(a) == a,
{
    assert(a.union_prefer_right(Map::empty()) =~= a);
    assert(Map::empty().union_prefer_right(a) =~= a);
}

/// Hoisting a concatenation hoists the left part first, then the right part
/// with the counter advanced.
proof fn lemma_hoisted_concat(c: nat, v1: Seq<ValueModel>, v2: Seq<ValueModel>)
    ensures
        hoisted_bindings(c, v1).union_prefer_right(hoisted_bindings((c + v1.len()) as nat, v2))
            == hoisted_bindings(c, v1 + v2),
    decreases v2.len(),
{
    if v2.len() == 0 {
        assert(v1 + v2 =~= v1);
        lemma_union_empty(hoisted_bindings(c, v1));
    } else {
        lemma_hoisted_concat(c, v1, v2.drop_last());
        assert((v1 + v2).drop_last() =~= v1 + v2.drop_last());
        assert((v1 + v2).last() == v2.last());
        lemma_union_insert(
            hoisted_bindings(c, v1),
            hoisted_bindings((c + v1.len()) as nat, v2.drop_last()),
            const_name((c + v1.len() + v2.len() - 1) as nat),
            v2.last(),
        );
    }
}

/// Two distinct counters give distinct synthetic names.
proof fn lemma_const_names_distinct(a: nat, b: nat)
    requires
        a != b,
    ensures
        const_name(a) != const_name(b),
{
    if const_name(a) == const_name(b) {
        crate::names::lemma_const_name_injective(a, b);
    }
}

/// The hoisted environment binds exactly the names `const_name(c + i)` for
/// `i` below the number of values, each exactly once, to the values in
/// order.
pub proof fn lemma_hoisted_bindings_facts(c: nat, vals: Seq<ValueModel>)
    ensures
        hoisted_bindings(c, vals).dom().finite(),
        hoisted_bindings(c, vals).dom().len() == vals.len(),
        forall|i: int|
            0 <= i < vals.len() ==> #[trigger] hoisted_bindings(c, vals).contains_key(
                const_name((c + i) as nat),
            ) && hoisted_bindings(c, vals)[const_name((c + i) as nat)] == vals[i],
        forall|k: Seq<char>|
            #[trigger] hoisted_bindings(c, vals).contains_key(k) ==> exists|i: int|
                0 <= i < vals.len() && k == #[trigger] const_name((c + i) as nat),
    decreases vals.len(),
{
    if vals.len() > 0 {
        let prefix = vals.drop_last();
        let lastname = const_name((c + vals.len() - 1) as nat);
        lemma_hoisted_bindings_facts(c, prefix);
        assert forall|i: int| 0 <= i < prefix.len() implies lastname != #[trigger] const_name(
            (c + i) as nat,
        ) by {
            lemma_const_names_distinct((c + vals.len() - 1) as nat, (c + i) as nat);
        }
        assert(!hoisted_bindings(c, prefix).contains_key(lastname));
        assert(hoisted_bindings(c, vals).dom() =~= hoisted_bindings(c, prefix).dom().insert(
            lastname,
        ));
        assert forall|i: int| 0 <= i < vals.len() implies #[trigger] hoisted_bindings(
            c,
            vals,
        ).contains_key(const_name((c + i) as nat)) && hoisted_bindings(c, vals)[const_name(
            (c + i) as nat,
        )] == vals[i] by {
            if i < vals.len() - 1 {
                lemma_const_names_distinct((c + vals.len() - 1) as nat, (c + i) as nat);
                assert(prefix[i] == vals[i]);
            }
        }
    }
}

/// Lowering an expression advances the counter by one per literal, binds
/// the literals in depth-first order, and leaves no literal in the tree.
pub proof fn lemma_lower_expr_hoists(e: ExpressionModel, c: nat)
    ensures
        ({
            let (pe, m, c2) = lower_expr(e, c);
            &&& c2 == c + expr_consts(e).len()
            &&& m == hoisted_bindings(c, expr_consts(e))
            &&& expr_no_constant(pe)
        }),
    decreases e,
{
    match e {
        ExpressionModel::Constant(v) => {
            reveal_with_fuel(hoisted_bindings, 2);
            assert(seq![v].drop_last() =~= Seq::<ValueModel>::empty());
        },
        ExpressionModel::Variable(_) => {
        },
        ExpressionModel::Logic(f) => {
            lemma_lower_formula_hoists(*f, c);
        },
        ExpressionModel::Function(_, args) => {
            lemma_lower_named_seq_hoists(args, c);
        },
    }
}

pub proof fn lemma_lower_named_hoists(n: NamedModel, c: nat)
    ensures
        ({
            let (pn, m, c2) = lower_named(n, c);
            &&& c2 == c + named_consts(n).len()
            &&& m == hoisted_bindings(c, named_consts(n))
            &&& named_no_constant(pn)
        }),
    decreases n,
{
    match n {
        NamedModel::Expression(e, _) => {
            lemma_lower_expr_hoists(e, c);
        },
        NamedModel::Star => {
        },
    }
}

pub proof fn lemma_lower_named_seq_hoists(s: Seq<NamedModel>, c: nat)
    ensures
        ({
            let (ps, m, c2) = lower_named_seq(s, c);
            &&& c2 == c + named_seq_consts(s).len()
            &&& m == hoisted_bindings(c, named_seq_consts(s))
            &&& named_seq_no_constant(ps)
            &&& ps.len() == s.len()
        }),
    decreases s,
{
    if s.len() > 0 {
        let (pn, m1, c1) = lower_named(s[0], c);
        let (rest, m2, c2) = lower_named_seq(s.drop_first(), c1);
        lemma_lower_named_hoists(s[0], c);
        lemma_lower_named_seq_hoists(s.drop_first(), c1);
        lemma_hoisted_concat(c, named_consts(s[0]), named_seq_consts(s.drop_first()));
        assert((seq![pn] + rest)[0] == pn);
        assert((seq![pn] + rest).drop_first() =~= rest);
    }
}

pub proof fn lemma_lower_formula_hoists(f: FormulaModel, c: nat)
    ensures
        ({
            let (pf, m, c2) = lower_formula(f, c);
            &&& c2 == c + formula_consts(f).len()
            &&& m == hoisted_bindings(c, formula_consts(f))
            &&& formula_no_constant(pf)
        }),
    decreases f,
{
    match f {
        FormulaModel::And(l, r) => {
            lemma_lower_formula_hoists(*l, c);
            let c1 = lower_formula(*l, c).2;
            lemma_lower_formula_hoists(*r, c1);
            lemma_hoisted_concat(c, formula_consts(*l), formula_consts(*r));
        },
        FormulaModel::Or(l, r) => {
            lemma_lower_formula_hoists(*l, c);
            let c1 = lower_formula(*l, c).2;
            lemma_lower_formula_hoists(*r, c1);
            lemma_hoisted_concat(c, formula_consts(*l), formula_consts(*r));
        },
        FormulaModel::Not(g) => {
            lemma_lower_formula_hoists(*g, c);
        },
        FormulaModel::Constant(_) => {
        },
        FormulaModel::Predicate(_, l, r) => {
            lemma_lower_expr_hoists(*l, c);
            let c1 = lower_expr(*l, c).2;
            lemma_lower_expr_hoists(*r, c1);
            lemma_hoisted_concat(c, expr_consts(*l), expr_consts(*r));
        },
    }
}

pub proof fn lemma_lower_aggregate_hoists(a: AggregateModel, c: nat)
    ensures
        ({
            let (pa, m, c2) = lower_aggregate(a, c);
            &&& c2 == c + aggregate_consts(a).len()
            &&& m == hoisted_bindings(c, aggregate_consts(a))
        }),
    decreases a,
{
    match a {
        AggregateModel::Avg(n) => lemma_lower_named_hoists(n, c),
        AggregateModel::Count(n) => lemma_lower_named_hoists(n, c),
        AggregateModel::First(n) => lemma_lower_named_hoists(n, c),
        AggregateModel::Last(n) => lemma_lower_named_hoists(n, c),
        AggregateModel::Max(n) => lemma_lower_named_hoists(n, c),
        AggregateModel::Min(n) => lemma_lower_named_hoists(n, c),
        AggregateModel::Sum(n) => lemma_lower_named_hoists(n, c),
        AggregateModel::ApproxCountDistinct(n) => lemma_lower_named_hoists(n, c),
        AggregateModel::PercentileDisc(_, _, _) => {
        },
        AggregateModel::ApproxPercentile(_, _, _) => {
        },
    }
}

pub proof fn lemma_lower_named_agg_seq_hoists(s: Seq<NamedAggregateModel>, c: nat)
    ensures
        ({
            let (ps, m, c2) = lower_named_agg_seq(s, c);
            &&& c2 == c + named_agg_seq_consts(s).len()
            &&& m == hoisted_bindings(c, named_agg_seq_consts(s))
            &&& ps.len() == s.len()
        }),
    decreases s,
{
    if s.len() > 0 {
        lemma_lower_aggregate_hoists(s[0].aggregate, c);
        let c1 = lower_named_agg(s[0], c).2;
        lemma_lower_named_agg_seq_hoists(s.drop_first(), c1);
        lemma_hoisted_concat(c, aggregate_consts(s[0].aggregate), named_agg_seq_consts(s.drop_first()));
    }
}

/// Lowering a plan node advances the counter by one per literal in the
/// whole tree and binds every literal, in depth-first order.
pub proof fn lemma_lower_node_hoists(n: NodeModel, c: nat)
    ensures
        ({
            let (pn, m, c2) = lower_node(n, c);
            &&& c2 == c + node_consts(n).len()
            &&& m == hoisted_bindings(c, node_consts(n))
        }),
    decreases n,
{
    match n {
        NodeModel::DataSource(_, _) => {
        },
        NodeModel::Filter(f, child) => {
            lemma_lower_formula_hoists(*f, c);
            let c1 = lower_formula(*f, c).2;
            lemma_lower_node_hoists(*child, c1);
            lemma_hoisted_concat(c, formula_consts(*f), node_consts(*child));
        },
        NodeModel::Project(named, child) => {
            lemma_lower_named_seq_hoists(named, c);
            let c1 = lower_named_seq(named, c).2;
            lemma_lower_node_hoists(*child, c1);
            lemma_hoisted_concat(c, named_seq_consts(named), node_consts(*child));
        },
        NodeModel::GroupBy(_, aggs, child) => {
            lemma_lower_named_agg_seq_hoists(aggs, c);
            let c1 = lower_named_agg_seq(aggs, c).2;
            lemma_lower_node_hoists(*child, c1);
            lemma_hoisted_concat(c, named_agg_seq_consts(aggs), node_consts(*child));
        },
        NodeModel::Limit(_, child) => {
            lemma_lower_node_hoists(*child, c);
        },
        NodeModel::OrderBy(_, _, child) => {
            lemma_lower_node_hoists(*child, c);
        },
    }
}

/// Constant-hoisting law: after lowering an expression tree, the physical
/// tree holds no literal; every literal of the source tree appears exactly
/// once in the returned environment, under the synthetic name whose counter
/// reflects its position in left-to-right depth-first order.
pub proof fn lemma_constant_hoisting(e: ExpressionModel, c: nat)
    ensures
        ({
            let (pe, m, c2) = lower_expr(e, c);
            &&& expr_no_constant(pe)
            &&& c2 == c + expr_consts(e).len()
            &&& m.dom().finite() && m.dom().len() == expr_consts(e).len()
            &&& forall|i: int|
                0 <= i < expr_consts(e).len() ==> #[trigger] m.contains_key(
                    const_name((c + i) as nat),
                ) && m[const_name((c + i) as nat)] == expr_consts(e)[i]
            &&& forall|k: Seq<char>|
                #[trigger] m.contains_key(k) ==> exists|i: int|
                    0 <= i < expr_consts(e).len() && k == #[trigger] const_name((c + i) as nat)
        }),
{
    lemma_lower_expr_hoists(e, c);
    lemma_hoisted_bindings_facts(c, expr_consts(e));
}

/// Determinism law: lowering is a pure function of the logical tree and
/// the planner's starting counter, so lowering the same plan twice with two
/// freshly constructed planners yields structurally identical physical
/// trees and identical binding environments.
pub proof fn lemma_lowering_deterministic(n: NodeModel, c1: nat, c2: nat)
    requires
        c1 == c2,
    ensures
        lower_node(n, c1) == lower_node(n, c2),
{
}


// ---------------------------------------------------------------------------
// Evaluation of physical expressions against a binding environment.
// ---------------------------------------------------------------------------
/// Whether `a` precedes `b` in lexicographic code-point order.
pub open spec fn seq_char_lt(a: Seq<char>, b: Seq<char>) -> bool
    decreases a.len(),
{
    if b.len() == 0 {
        false
    } else if a.len() == 0 {
        true
    } else if a.first() != b.first() {
        (a.first() as u32) < (b.first() as u32)
    } else {
        seq_char_lt(a.drop_first(), b.drop_first())
    }
}

/// A relation applied to two integers.
pub open spec fn int_rel(rel: RelationModel, x: int, y: int) -> bool {
    match rel {
        RelationModel::Equal => x == y,
        RelationModel::NotEqual => x != y,
        RelationModel::MoreThan => x > y,
        RelationModel::LessThan => x < y,
        RelationModel::GreaterEqual => x >= y,
        RelationModel::LessEqual => x <= y,
    }
}

/// A relation applied to two character sequences, in lexicographic
/// code-point order.
pub open spec fn str_rel(rel: RelationModel, a: Seq<char>, b: Seq<char>) -> bool {
    match rel {
        RelationModel::Equal => a == b,
        RelationModel::NotEqual => a != b,
        RelationModel::MoreThan => seq_char_lt(b, a),
        RelationModel::LessThan => seq_char_lt(a, b),
        RelationModel::GreaterEqual => !seq_char_lt(a, b),
        RelationModel::LessEqual => !seq_char_lt(b, a),
    }
}

/// A relation applied to two values: total within a kind, a type error
/// across kinds; booleans admit only equality and inequality.
pub open spec fn compare_values_model(rel: RelationModel, a: ValueModel, b: ValueModel) -> Result<
    bool,
    EvalErrorKind,
> {
    match (a, b) {
        (ValueModel::Int(x), ValueModel::Int(y)) => Ok(int_rel(rel, x, y)),
        (ValueModel::Str(x), ValueModel::Str(y)) => Ok(str_rel(rel, x, y)),
        (ValueModel::Bool(x), ValueModel::Bool(y)) => match rel {
            RelationModel::Equal => Ok(x == y),
            RelationModel::NotEqual => Ok(x != y),
            _ => Err(EvalErrorKind::TypeMismatch),
        },
        _ => Err(EvalErrorKind::TypeMismatch),
    }
}

/// Looking a name up in the environment.
pub open spec fn lookup_env(env: EnvModel, name: Seq<char>) -> Result<ValueModel, EvalErrorKind> {
    if env.contains_key(name) {
        Ok(env[name])
    } else {
        Err(EvalErrorKind::UndefinedVariable)
    }
}

/// The value of a physical expression under an environment. The engine
/// provides no function library, so a function call is an error; a literal
/// never occurs in a lowered tree.
pub open spec fn eval_expr(e: ExpressionModel, env: EnvModel) -> Result<ValueModel, EvalErrorKind>
    decreases e,
{
    match e {
        ExpressionModel::Constant(v) => Ok(v),
        ExpressionModel::Variable(name) => lookup_env(env, name),
        ExpressionModel::Logic(f) => match eval_formula(*f, env) {
            Ok(b) => Ok(ValueModel::Bool(b)),
            Err(k) => Err(k),
        },
        ExpressionModel::Function(_, _) => Err(EvalErrorKind::UnknownFunction),
    }
}

/// The truth value of a formula under an environment; the left operand's
/// failure wins over the right operand's.
pub open spec fn eval_formula(f: FormulaModel, env: EnvModel) -> Result<bool, EvalErrorKind>
    decreases f,
{
    match f {
        FormulaModel::And(l, r) => match (eval_formula(*l, env), eval_formula(*r, env)) {
            (Ok(a), Ok(b)) => Ok(a && b),
            (Err(k), _) => Err(k),
            (_, Err(k)) => Err(k),
        },
        FormulaModel::Or(l, r) => match (eval_formula(*l, env), eval_formula(*r, env)) {
            (Ok(a), Ok(b)) => Ok(a || b),
            (Err(k), _) => Err(k),
            (_, Err(k)) => Err(k),
        },
        FormulaModel::Not(g) => match eval_formula(*g, env) {
            Ok(b) => Ok(!b),
            Err(k) => Err(k),
        },
        FormulaModel::Constant(b) => Ok(b),
        FormulaModel::Predicate(rel, l, r) => match (eval_expr(*l, env), eval_expr(*r, env)) {
            (Ok(a), Ok(b)) => compare_values_model(rel, a, b),
            (Err(k), _) => Err(k),
            (_, Err(k)) => Err(k),
        },
    }
}

} // verus!
