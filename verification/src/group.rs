//! The aggregation engine and the group-by stream. Each accumulator is a
//! small state machine with an `update`/`finalize` contract against the
//! spec-level fold below; the group-by stream buckets its child's records
//! by grouping-key equality, in first-seen key order, and emits one record
//! per distinct key: the grouping values followed by the finalized
//! aggregate results in declared order.

use vstd::prelude::*;

use crate::common::EvalError;
use crate::common::EvalErrorKind;
use crate::common::Value;
use crate::common::ValueModel;
use crate::common::VariableName;
use crate::common::Variables;
use crate::common::merge;
use crate::common::value_eq;
use crate::execution::ApproxCountDistinctAggregate;
use crate::execution::ApproxPercentileAggregate;
use crate::execution::AvgAggregate;
use crate::execution::CountAggregate;
use crate::execution::FirstAggregate;
use crate::execution::LastAggregate;
use crate::execution::MaxAggregate;
use crate::execution::MinAggregate;
use crate::execution::Ordering;
use crate::execution::PercentileDiscAggregate;
use crate::execution::SumAggregate;
use crate::model::AggregateModel;
use crate::model::EnvModel;
use crate::model::NamedModel;
use crate::model::OrderingModel;
use crate::model::eval_expr;
use crate::model::lookup_env;
use crate::order::val_lt;
use crate::order::val_lt_exec;
use crate::stream::Record;
use crate::stream::RecordModel;
use crate::stream::RecordStream;
use crate::stream::stage_env;

verus! {

/// The mathematical state of an accumulator.
pub ghost enum AccState {
    Avg(int, int),
    Count(int),
    Sum(int),
    First(Option<ValueModel>),
    Last(Option<ValueModel>),
    Min(Option<ValueModel>),
    Max(Option<ValueModel>),
    Distinct(Seq<ValueModel>),
    Percentile(nat, OrderingModel, Seq<ValueModel>),
}

/// The zero state of an aggregate's accumulator.
pub open spec fn acc_init(a: AggregateModel) -> AccState {
    match a {
        AggregateModel::Avg(_) => AccState::Avg(0, 0),
        AggregateModel::Count(_) => AccState::Count(0),
        AggregateModel::Sum(_) => AccState::Sum(0),
        AggregateModel::First(_) => AccState::First(None),
        AggregateModel::Last(_) => AccState::Last(None),
        AggregateModel::Min(_) => AccState::Min(None),
        AggregateModel::Max(_) => AccState::Max(None),
        AggregateModel::ApproxCountDistinct(_) => AccState::Distinct(Seq::empty()),
        AggregateModel::PercentileDisc(p, _, ord) => AccState::Percentile(p, ord, Seq::empty()),
        AggregateModel::ApproxPercentile(p, _, ord) => AccState::Percentile(p, ord, Seq::empty()),
    }
}

/// One accumulator step. `Count` counts every record, whatever its input;
/// every other accumulator needs a value, so the wildcard operand is a
/// domain error there. Sums that leave the machine range, and counts that
/// would, are domain errors; the extremal accumulators inherit the type
/// errors of value ordering.
pub open spec fn acc_update(st: AccState, input: Option<ValueModel>) -> Result<
    AccState,
    EvalErrorKind,
> {
    match st {
        AccState::Count(c) => if c + 1 <= i64::MAX {
            Ok(AccState::Count(c + 1))
        } else {
            Err(EvalErrorKind::AggregateDomain)
        },
        AccState::Avg(s, c) => match input {
            Some(ValueModel::Int(x)) => if i64::MIN <= s + x <= i64::MAX && c + 1 <= i64::MAX {
                Ok(AccState::Avg(s + x, c + 1))
            } else {
                Err(EvalErrorKind::AggregateDomain)
            },
            Some(_) => Err(EvalErrorKind::TypeMismatch),
            None => Err(EvalErrorKind::AggregateDomain),
        },
        AccState::Sum(s) => match input {
            Some(ValueModel::Int(x)) => if i64::MIN <= s + x <= i64::MAX {
                Ok(AccState::Sum(s + x))
            } else {
                Err(EvalErrorKind::AggregateDomain)
            },
            Some(_) => Err(EvalErrorKind::TypeMismatch),
            None => Err(EvalErrorKind::AggregateDomain),
        },
        AccState::First(opt) => match input {
            Some(v) => match opt {
                Some(first) => Ok(AccState::First(Some(first))),
                None => Ok(AccState::First(Some(v))),
            },
            None => Err(EvalErrorKind::AggregateDomain),
        },
        AccState::Last(_) => match input {
            Some(v) => Ok(AccState::Last(Some(v))),
            None => Err(EvalErrorKind::AggregateDomain),
        },
        AccState::Min(opt) => match input {
            Some(v) => match opt {
                None => Ok(AccState::Min(Some(v))),
                Some(m) => match val_lt(v, m) {
                    Ok(true) => Ok(AccState::Min(Some(v))),
                    Ok(false) => Ok(AccState::Min(Some(m))),
                    Err(k) => Err(k),
                },
            },
            None => Err(EvalErrorKind::AggregateDomain),
        },
        AccState::Max(opt) => match input {
            Some(v) => match opt {
                None => Ok(AccState::Max(Some(v))),
                Some(m) => match val_lt(m, v) {
                    Ok(true) => Ok(AccState::Max(Some(v))),
                    Ok(false) => Ok(AccState::Max(Some(m))),
                    Err(k) => Err(k),
                },
            },
            None => Err(EvalErrorKind::AggregateDomain),
        },
        AccState::Distinct(seen) => match input {
            Some(v) => if seen.contains(v) {
                Ok(AccState::Distinct(seen))
            } else {
                Ok(AccState::Distinct(seen.push(v)))
            },
            None => Err(EvalErrorKind::AggregateDomain),
        },
        AccState::Percentile(p, ord, vals) => match input {
            Some(v) => Ok(AccState::Percentile(p, ord, vals.push(v))),
            None => Err(EvalErrorKind::AggregateDomain),
        },
    }
}

/// Whether `a` strictly precedes `b` in the given direction.
pub open spec fn val_lt_dir(ord: OrderingModel, a: ValueModel, b: ValueModel) -> Result<
    bool,
    EvalErrorKind,
> {
    match ord {
        OrderingModel::Asc => val_lt(a, b),
        OrderingModel::Desc => val_lt(b, a),
    }
}

/// Inserts `x` into the sorted value sequence `s`, after every element
/// that does not strictly follow it, or reports the first comparison that
/// is a type error.
pub open spec fn insert_sorted_val(ord: OrderingModel, x: ValueModel, s: Seq<ValueModel>) -> Result<
    Seq<ValueModel>,
    EvalErrorKind,
>
    decreases s.len(),
{
    if s.len() == 0 {
        Ok(seq![x])
    } else {
        match val_lt_dir(ord, x, s.last()) {
            Err(k) => Err(k),
            Ok(true) => match insert_sorted_val(ord, x, s.drop_last()) {
                Ok(t) => Ok(t.push(s.last())),
                Err(k) => Err(k),
            },
            Ok(false) => Ok(s.push(x)),
        }
    }
}

/// The stable insertion sort of a value sequence, or the first comparison
/// failure.
pub open spec fn sort_vals(ord: OrderingModel, s: Seq<ValueModel>) -> Result<
    Seq<ValueModel>,
    EvalErrorKind,
>
    decreases s.len(),
{
    if s.len() == 0 {
        Ok(Seq::empty())
    } else {
        match sort_vals(ord, s.drop_last()) {
            Err(k) => Err(k),
            Ok(t) => insert_sorted_val(ord, s.last(), t),
        }
    }
}

/// Inserting keeps one more element.
pub proof fn lemma_insert_sorted_val_len(ord: OrderingModel, x: ValueModel, s: Seq<ValueModel>)
    ensures
        insert_sorted_val(ord, x, s) matches Ok(t) ==> t.len() == s.len() + 1,
    decreases s.len(),
{
    if s.len() > 0 {
        lemma_insert_sorted_val_len(ord, x, s.drop_last());
    }
}

/// Sorting keeps the length.
pub proof fn lemma_sort_vals_len(ord: OrderingModel, s: Seq<ValueModel>)
    ensures
        sort_vals(ord, s) matches Ok(t) ==> t.len() == s.len(),
    decreases s.len(),
{
    if s.len() > 0 {
        lemma_sort_vals_len(ord, s.drop_last());
        if sort_vals(ord, s.drop_last()) is Ok {
            lemma_insert_sorted_val_len(ord, s.last(), sort_vals(ord, s.drop_last()).unwrap());
        }
    }
}

/// The discrete percentile rank: `ceil(p * (n - 1) / 1_000_000)` for a
/// percentile of `p` millionths over `n` buffered values.
pub open spec fn percentile_rank(p: nat, n: nat) -> nat
    recommends
        n > 0,
{
    ((p * (n - 1) + 999_999) as nat) / 1_000_000
}

/// The finalized result of an accumulator: its aggregate's value, or a
/// domain error when no row contributed (and, for a percentile, when the
/// percentile lies outside the unit interval or the values cannot be
/// ordered).
pub open spec fn acc_final(st: AccState) -> Result<ValueModel, EvalErrorKind> {
    match st {
        AccState::Count(c) => Ok(ValueModel::Int(c)),
        AccState::Sum(s) => Ok(ValueModel::Int(s)),
        AccState::Avg(s, c) => if c <= 0 {
            Err(EvalErrorKind::AggregateDomain)
        } else {
            Ok(ValueModel::Int(trunc_div(s, c)))
        },
        AccState::First(opt) => match opt {
            Some(v) => Ok(v),
            None => Err(EvalErrorKind::AggregateDomain),
        },
        AccState::Last(opt) => match opt {
            Some(v) => Ok(v),
            None => Err(EvalErrorKind::AggregateDomain),
        },
        AccState::Min(opt) => match opt {
            Some(v) => Ok(v),
            None => Err(EvalErrorKind::AggregateDomain),
        },
        AccState::Max(opt) => match opt {
            Some(v) => Ok(v),
            None => Err(EvalErrorKind::AggregateDomain),
        },
        AccState::Distinct(seen) => if seen.len() <= i64::MAX {
            Ok(ValueModel::Int(seen.len() as int))
        } else {
            Err(EvalErrorKind::AggregateDomain)
        },
        AccState::Percentile(p, ord, vals) => if p > 1_000_000 || vals.len() == 0 {
            Err(EvalErrorKind::AggregateDomain)
        } else {
            match sort_vals(ord, vals) {
                Err(k) => Err(k),
                Ok(sorted) => Ok(sorted[percentile_rank(p, vals.len()) as int]),
            }
        },
    }
}

/// Integer division truncated toward zero, as the average's quotient.
pub open spec fn trunc_div(s: int, c: int) -> int
    recommends
        c > 0,
{
    if s >= 0 {
        s / c
    } else {
        -((-s) / c)
    }
}

// ---------------------------------------------------------------------------
// Executable accumulators.
// ---------------------------------------------------------------------------
impl AvgAggregate {
    pub open spec fn acc_model(self) -> AccState {
        AccState::Avg(self.sum as int, self.count as int)
    }

    /// Feeds one value.
    pub fn update(&mut self, value: &Value) -> (r: Result<(), EvalError>)
        ensures
            match r {
                Ok(_) => acc_update(old(self).acc_model(), Some(value.model())) == Ok::<
                    AccState,
                    EvalErrorKind,
                >(final(self).acc_model()),
                Err(e) => acc_update(old(self).acc_model(), Some(value.model())) == Err::<
                    AccState,
                    EvalErrorKind,
                >(e.kind) && *final(self) == *old(self),
            },
    {
        match value {
            Value::Int(x) => {
                if (*x > 0 && self.sum > i64::MAX - *x) || (*x < 0 && self.sum < i64::MIN - *x)
                    || self.count == i64::MAX {
                    Err(EvalError::new(EvalErrorKind::AggregateDomain, "sum out of range"))
                } else {
                    self.sum = self.sum + *x;
                    self.count = self.count + 1;
                    Ok(())
                }
            },
            _ => Err(EvalError::new(EvalErrorKind::TypeMismatch, "average needs integers")),
        }
    }

    /// The average of the values fed so far; an error when none were.
    pub fn finalize(&self) -> (r: Result<Value, EvalError>)
        ensures
            match r {
                Ok(v) => acc_final(self.acc_model()) == Ok::<ValueModel, EvalErrorKind>(v.model()),
                Err(e) => acc_final(self.acc_model()) == Err::<ValueModel, EvalErrorKind>(e.kind),
            },
    {
        if self.count <= 0 {
            Err(EvalError::new(EvalErrorKind::AggregateDomain, "average of no rows"))
        } else if self.sum >= 0 {
            Ok(Value::Int(self.sum / self.count))
        } else {
            let magnitude: u64 = if self.sum == i64::MIN {
                9223372036854775808u64
            } else {
                (-self.sum) as u64
            };
            proof {
                assert(magnitude as int == -(self.sum as int));
            }
            let q = magnitude / (self.count as u64);
            if q >= 9223372036854775808u64 {
                proof {
                    assert(q as int == magnitude as int / self.count as int);
                    if self.count >= 2 {
                        vstd::arithmetic::div_mod::lemma_div_is_ordered_by_denominator(
                            magnitude as int,
                            2,
                            self.count as int,
                        );
                        assert(magnitude as int / 2 <= 4611686018427387904);
                        assert(false);
                    }
                    assert(self.count == 1);
                    vstd::arithmetic::div_mod::lemma_div_basics(magnitude as int);
                    assert(trunc_div(self.sum as int, self.count as int) == i64::MIN);
                }
                Ok(Value::Int(i64::MIN))
            } else {
                proof {
                    assert(q as int == magnitude as int / self.count as int);
                    assert(-(q as int) == trunc_div(self.sum as int, self.count as int));
                }
                Ok(Value::Int(-(q as i64)))
            }
        }
    }
}

impl CountAggregate {
    pub open spec fn acc_model(self) -> AccState {
        AccState::Count(self.count as int)
    }

    /// Counts one record, whatever its value.
    pub fn update(&mut self) -> (r: Result<(), EvalError>)
        ensures
            match r {
                Ok(_) => acc_update(old(self).acc_model(), None) == Ok::<AccState, EvalErrorKind>(
                    final(self).acc_model(),
                ),
                Err(e) => acc_update(old(self).acc_model(), None) == Err::<
                    AccState,
                    EvalErrorKind,
                >(e.kind) && *final(self) == *old(self),
            },
    {
        if self.count == i64::MAX {
            Err(EvalError::new(EvalErrorKind::AggregateDomain, "count out of range"))
        } else {
            self.count = self.count + 1;
            Ok(())
        }
    }

    /// The number of records fed so far.
    pub fn finalize(&self) -> (r: Result<Value, EvalError>)
        ensures
            match r {
                Ok(v) => acc_final(self.acc_model()) == Ok::<ValueModel, EvalErrorKind>(v.model()),
                Err(e) => acc_final(self.acc_model()) == Err::<ValueModel, EvalErrorKind>(e.kind),
            },
    {
        Ok(Value::Int(self.count))
    }
}

impl SumAggregate {
    pub open spec fn acc_model(self) -> AccState {
        AccState::Sum(self.sum as int)
    }

    pub fn update(&mut self, value: &Value) -> (r: Result<(), EvalError>)
        ensures
            match r {
                Ok(_) => acc_update(old(self).acc_model(), Some(value.model())) == Ok::<
                    AccState,
                    EvalErrorKind,
                >(final(self).acc_model()),
                Err(e) => acc_update(old(self).acc_model(), Some(value.model())) == Err::<
                    AccState,
                    EvalErrorKind,
                >(e.kind) && *final(self) == *old(self),
            },
    {
        match value {
            Value::Int(x) => {
                if (*x > 0 && self.sum > i64::MAX - *x) || (*x < 0 && self.sum < i64::MIN - *x) {
                    Err(EvalError::new(EvalErrorKind::AggregateDomain, "sum out of range"))
                } else {
                    self.sum = self.sum + *x;
                    Ok(())
                }
            },
            _ => Err(EvalError::new(EvalErrorKind::TypeMismatch, "sum needs integers")),
        }
    }

    pub fn finalize(&self) -> (r: Result<Value, EvalError>)
        ensures
            match r {
                Ok(v) => acc_final(self.acc_model()) == Ok::<ValueModel, EvalErrorKind>(v.model()),
                Err(e) => acc_final(self.acc_model()) == Err::<ValueModel, EvalErrorKind>(e.kind),
            },
    {
        Ok(Value::Int(self.sum))
    }
}

impl FirstAggregate {
    pub open spec fn acc_model(self) -> AccState {
        AccState::First(
            match self.value {
                Option::Some(v) => Option::Some(v.model()),
                Option::None => Option::None,
            },
        )
    }

    pub fn update(&mut self, value: &Value) -> (r: Result<(), EvalError>)
        ensures
            r is Ok,
            acc_update(old(self).acc_model(), Some(value.model())) == Ok::<
                AccState,
                EvalErrorKind,
            >(final(self).acc_model()),
    {
        if self.value.is_none() {
            self.value = Some(value.clone());
        }
        Ok(())
    }

    pub fn finalize(&self) -> (r: Result<Value, EvalError>)
        ensures
            match r {
                Ok(v) => acc_final(self.acc_model()) == Ok::<ValueModel, EvalErrorKind>(v.model()),
                Err(e) => acc_final(self.acc_model()) == Err::<ValueModel, EvalErrorKind>(e.kind),
            },
    {
        match &self.value {
            Some(v) => Ok(v.clone()),
            None => Err(EvalError::new(EvalErrorKind::AggregateDomain, "no first row")),
        }
    }
}

impl LastAggregate {
    pub open spec fn acc_model(self) -> AccState {
        AccState::Last(
            match self.value {
                Option::Some(v) => Option::Some(v.model()),
                Option::None => Option::None,
            },
        )
    }

    pub fn update(&mut self, value: &Value) -> (r: Result<(), EvalError>)
        ensures
            r is Ok,
            acc_update(old(self).acc_model(), Some(value.model())) == Ok::<
                AccState,
                EvalErrorKind,
            >(final(self).acc_model()),
    {
        self.value = Some(value.clone());
        Ok(())
    }

    pub fn finalize(&self) -> (r: Result<Value, EvalError>)
        ensures
            match r {
                Ok(v) => acc_final(self.acc_model()) == Ok::<ValueModel, EvalErrorKind>(v.model()),
                Err(e) => acc_final(self.acc_model()) == Err::<ValueModel, EvalErrorKind>(e.kind),
            },
    {
        match &self.value {
            Some(v) => Ok(v.clone()),
            None => Err(EvalError::new(EvalErrorKind::AggregateDomain, "no last row")),
        }
    }
}

impl MinAggregate {
    pub open spec fn acc_model(self) -> AccState {
        AccState::Min(
            match self.value {
                Option::Some(v) => Option::Some(v.model()),
                Option::None => Option::None,
            },
        )
    }

    pub fn update(&mut self, value: &Value) -> (r: Result<(), EvalError>)
        ensures
            match r {
                Ok(_) => acc_update(old(self).acc_model(), Some(value.model())) == Ok::<
                    AccState,
                    EvalErrorKind,
                >(final(self).acc_model()),
                Err(e) => acc_update(old(self).acc_model(), Some(value.model())) == Err::<
                    AccState,
                    EvalErrorKind,
                >(e.kind) && *final(self) == *old(self),
            },
    {
        match &self.value {
            None => {
                self.value = Some(value.clone());
                Ok(())
            },
            Some(m) => {
                let less = val_lt_exec(value, m)?;
                if less {
                    self.value = Some(value.clone());
                }
                Ok(())
            },
        }
    }

    pub fn finalize(&self) -> (r: Result<Value, EvalError>)
        ensures
            match r {
                Ok(v) => acc_final(self.acc_model()) == Ok::<ValueModel, EvalErrorKind>(v.model()),
                Err(e) => acc_final(self.acc_model()) == Err::<ValueModel, EvalErrorKind>(e.kind),
            },
    {
        match &self.value {
            Some(v) => Ok(v.clone()),
            None => Err(EvalError::new(EvalErrorKind::AggregateDomain, "no rows for minimum")),
        }
    }
}

impl MaxAggregate {
    pub open spec fn acc_model(self) -> AccState {
        AccState::Max(
            match self.value {
                Option::Some(v) => Option::Some(v.model()),
                Option::None => Option::None,
            },
        )
    }

    pub fn update(&mut self, value: &Value) -> (r: Result<(), EvalError>)
        ensures
            match r {
                Ok(_) => acc_update(old(self).acc_model(), Some(value.model())) == Ok::<
                    AccState,
                    EvalErrorKind,
                >(final(self).acc_model()),
                Err(e) => acc_update(old(self).acc_model(), Some(value.model())) == Err::<
                    AccState,
                    EvalErrorKind,
                >(e.kind) && *final(self) == *old(self),
            },
    {
        match &self.value {
            None => {
                self.value = Some(value.clone());
                Ok(())
            },
            Some(m) => {
                let more = val_lt_exec(m, value)?;
                if more {
                    self.value = Some(value.clone());
                }
                Ok(())
            },
        }
    }

    pub fn finalize(&self) -> (r: Result<Value, EvalError>)
        ensures
            match r {
                Ok(v) => acc_final(self.acc_model()) == Ok::<ValueModel, EvalErrorKind>(v.model()),
                Err(e) => acc_final(self.acc_model()) == Err::<ValueModel, EvalErrorKind>(e.kind),
            },
    {
        match &self.value {
            Some(v) => Ok(v.clone()),
            None => Err(EvalError::new(EvalErrorKind::AggregateDomain, "no rows for maximum")),
        }
    }
}

impl ApproxCountDistinctAggregate {
    pub open spec fn acc_model(self) -> AccState {
        AccState::Distinct(self.seen@.map_values(|v: Value| v.model()))
    }

    pub fn update(&mut self, value: &Value) -> (r: Result<(), EvalError>)
        ensures
            r is Ok,
            acc_update(old(self).acc_model(), Some(value.model())) == Ok::<
                AccState,
                EvalErrorKind,
            >(final(self).acc_model()),
    {
        let ghost seen0 = self.seen@.map_values(|v: Value| v.model());
        let mut i: usize = 0;
        while i < self.seen.len()
            invariant
                i <= self.seen@.len(),
                self.seen@.map_values(|v: Value| v.model()) == seen0,
                forall|j: int| 0 <= j < i ==> seen0[j] != value.model(),
            decreases self.seen@.len() - i,
        {
            if value_eq(&self.seen[i], value) {
                proof {
                    assert(seen0[i as int] == value.model());
                    assert(seen0.contains(value.model()));
                }
                return Ok(());
            }
            i += 1;
        }
        proof {
            assert(!seen0.contains(value.model()));
        }
        self.seen.push(value.clone());
        proof {
            assert(self.seen@.map_values(|v: Value| v.model()) =~= seen0.push(value.model()));
        }
        Ok(())
    }

    pub fn finalize(&self) -> (r: Result<Value, EvalError>)
        ensures
            match r {
                Ok(v) => acc_final(self.acc_model()) == Ok::<ValueModel, EvalErrorKind>(v.model()),
                Err(e) => acc_final(self.acc_model()) == Err::<ValueModel, EvalErrorKind>(e.kind),
            },
    {
        let n = self.seen.len();
        if n as u64 <= i64::MAX as u64 {
            Ok(Value::Int(n as i64))
        } else {
            Err(EvalError::new(EvalErrorKind::AggregateDomain, "distinct count out of range"))
        }
    }
}


/// A sort failure at any prefix settles the whole sort.
proof fn lemma_sort_vals_err_propagates(ord: OrderingModel, s: Seq<ValueModel>, i: int)
    requires
        0 <= i < s.len(),
        sort_vals(ord, s.take(i + 1)) is Err,
    ensures
        sort_vals(ord, s) == sort_vals(ord, s.take(i + 1)),
    decreases s.len() - i,
{
    if i + 1 == s.len() {
        assert(s.take(i + 1) =~= s);
    } else {
        assert(s.take(i + 2).drop_last() =~= s.take(i + 1));
        lemma_sort_vals_err_propagates(ord, s, i + 1);
    }
}

/// Whether `a` strictly precedes `b` in the given direction.
fn val_lt_dir_exec(ord: Ordering, a: &Value, b: &Value) -> (r: Result<bool, EvalError>)
    ensures
        match r {
            Ok(x) => val_lt_dir(ord.model(), a.model(), b.model()) == Ok::<bool, EvalErrorKind>(x),
            Err(e) => val_lt_dir(ord.model(), a.model(), b.model()) == Err::<bool, EvalErrorKind>(
                e.kind,
            ),
        },
{
    match ord {
        Ordering::Asc => val_lt_exec(a, b),
        Ordering::Desc => val_lt_exec(b, a),
    }
}

/// Sorts the buffered values in the given direction by the stable
/// insertion sort, or reports the first comparison failure.
fn sort_vals_exec(ord: Ordering, values: &Vec<Value>) -> (r: Result<Vec<Value>, EvalError>)
    ensures
        ({
            let spec_r = sort_vals(ord.model(), values@.map_values(|v: Value| v.model()));
            match r {
                Ok(out) => spec_r == Ok::<Seq<ValueModel>, EvalErrorKind>(
                    out@.map_values(|v: Value| v.model()),
                ),
                Err(e) => spec_r == Err::<Seq<ValueModel>, EvalErrorKind>(e.kind),
            }
        }),
{
    let ghost om = ord.model();
    let ghost valsm = values@.map_values(|v: Value| v.model());
    let mut sorted: Vec<Value> = Vec::new();
    proof {
        assert(valsm.take(0) =~= Seq::<ValueModel>::empty());
        assert(sorted@.map_values(|v: Value| v.model()) =~= Seq::<ValueModel>::empty());
    }
    let mut i: usize = 0;
    while i < values.len()
        invariant
            i <= values@.len(),
            valsm == values@.map_values(|v: Value| v.model()),
            valsm.len() == values@.len(),
            sort_vals(om, valsm.take(i as int)) == Ok::<Seq<ValueModel>, EvalErrorKind>(
                sorted@.map_values(|v: Value| v.model()),
            ),
        decreases values@.len() - i,
    {
        let ghost sortedm = sorted@.map_values(|v: Value| v.model());
        let x = values[i].clone();
        let mut k: usize = sorted.len();
        let mut stop = false;
        proof {
            assert(sortedm.skip(k as int) =~= Seq::<ValueModel>::empty());
            assert(sortedm.take(k as int) =~= sortedm);
            if insert_sorted_val(om, x.model(), sortedm.take(k as int)) is Ok {
                assert(insert_sorted_val(om, x.model(), sortedm.take(k as int)).unwrap() + sortedm.skip(
                    k as int,
                ) =~= insert_sorted_val(om, x.model(), sortedm.take(k as int)).unwrap());
            }
        }
        while k > 0 && !stop
            invariant
                k <= sorted@.len(),
                x.model() == valsm[i as int],
                sortedm == sorted@.map_values(|v: Value| v.model()),
                sortedm.len() == sorted@.len(),
                insert_sorted_val(om, x.model(), sortedm) == (match insert_sorted_val(
                    om,
                    x.model(),
                    sortedm.take(k as int),
                ) {
                    Ok(t) => Ok::<Seq<ValueModel>, EvalErrorKind>(t + sortedm.skip(k as int)),
                    Err(k2) => Err(k2),
                }),
                stop ==> k > 0 && (val_lt_dir(om, x.model(), sortedm[k - 1]) matches Ok(b) && !b),
            decreases k, (if stop { 0int } else { 1int }),
        {
            let ghost kk = k as int;
            proof {
                assert(sortedm.take(kk).last() == sortedm[kk - 1]);
                assert(sortedm.take(kk).drop_last() =~= sortedm.take(kk - 1));
            }
            let cmp = match val_lt_dir_exec(ord, &x, &sorted[k - 1]) {
                Ok(c) => c,
                Err(e) => {
                    proof {
                        assert(insert_sorted_val(om, x.model(), sortedm.take(kk)) == Err::<
                            Seq<ValueModel>,
                            EvalErrorKind,
                        >(e.kind));
                        assert(insert_sorted_val(om, x.model(), sortedm) == Err::<
                            Seq<ValueModel>,
                            EvalErrorKind,
                        >(e.kind));
                        assert(valsm.take(i + 1).drop_last() =~= valsm.take(i as int));
                        assert(valsm.take(i + 1).last() == valsm[i as int]);
                        assert(sort_vals(om, valsm.take(i + 1)) == Err::<
                            Seq<ValueModel>,
                            EvalErrorKind,
                        >(e.kind));
                        lemma_sort_vals_err_propagates(om, valsm, i as int);
                    }
                    return Err(e);
                },
            };
            if cmp {
                proof {
                    if insert_sorted_val(om, x.model(), sortedm.take(kk - 1)) is Ok {
                        assert(insert_sorted_val(om, x.model(), sortedm.take(kk - 1)).unwrap().push(
                            sortedm[kk - 1],
                        ) + sortedm.skip(kk) =~= insert_sorted_val(
                            om,
                            x.model(),
                            sortedm.take(kk - 1),
                        ).unwrap() + sortedm.skip(kk - 1));
                    }
                }
                k = k - 1;
            } else {
                stop = true;
            }
        }
        let pos = k;
        proof {
            if stop {
                assert(sortedm.take(k as int).last() == sortedm[k - 1]);
                assert(insert_sorted_val(om, x.model(), sortedm.take(k as int)) == Ok::<
                    Seq<ValueModel>,
                    EvalErrorKind,
                >(sortedm.take(k as int).push(x.model())));
                assert(sortedm.take(k as int).push(x.model()) + sortedm.skip(k as int)
                    =~= sortedm.insert(k as int, x.model()));
            } else {
                assert(k == 0);
                assert(sortedm.take(0) =~= Seq::<ValueModel>::empty());
                assert(insert_sorted_val(om, x.model(), sortedm.take(0)) == Ok::<
                    Seq<ValueModel>,
                    EvalErrorKind,
                >(seq![x.model()]));
                assert(seq![x.model()] + sortedm.skip(0) =~= sortedm.insert(0, x.model()));
            }
        }
        sorted.insert(pos, x);
        proof {
            assert(sorted@.map_values(|v: Value| v.model()) =~= sortedm.insert(
                pos as int,
                valsm[i as int],
            ));
            assert(valsm.take(i + 1).drop_last() =~= valsm.take(i as int));
            assert(valsm.take(i + 1).last() == valsm[i as int]);
        }
        i += 1;
    }
    proof {
        assert(valsm.take(values@.len() as int) =~= valsm);
    }
    Ok(sorted)
}

/// Finalizes a percentile accumulator: checks the percentile and the
/// buffer, sorts, and selects the element at the discrete rank.
fn percentile_finalize(percentile_micro: u32, ordering: Ordering, values: &Vec<Value>) -> (r:
    Result<Value, EvalError>)
    ensures
        ({
            let spec_r = acc_final(
                AccState::Percentile(
                    percentile_micro as nat,
                    ordering.model(),
                    values@.map_values(|v: Value| v.model()),
                ),
            );
            match r {
                Ok(v) => spec_r == Ok::<ValueModel, EvalErrorKind>(v.model()),
                Err(e) => spec_r == Err::<ValueModel, EvalErrorKind>(e.kind),
            }
        }),
{
    let ghost valsm = values@.map_values(|v: Value| v.model());
    if percentile_micro > 1_000_000 {
        return Err(
            EvalError::new(EvalErrorKind::AggregateDomain, "percentile outside the unit interval"),
        );
    }
    let n = values.len();
    if n == 0 {
        return Err(EvalError::new(EvalErrorKind::AggregateDomain, "percentile of no rows"));
    }
    let sorted = sort_vals_exec(ordering, values)?;
    proof {
        lemma_sort_vals_len(ordering.model(), valsm);
        assert(percentile_micro as int * (n as int - 1) <= 1_000_000 * (n as int - 1))
            by (nonlinear_arith)
            requires
                0 <= percentile_micro as int <= 1_000_000,
                n as int >= 1,
        ;
        assert(1_000_000 * (n as int - 1) < 0x10000000000000000000000000) by (nonlinear_arith)
            requires
                0 <= n as int - 1 < 0x10000000000000000,
        ;
    }
    let rank_wide: u128 = (percentile_micro as u128 * (n as u128 - 1) + 999_999) / 1_000_000;
    proof {
        vstd::arithmetic::div_mod::lemma_div_is_ordered(
            percentile_micro as int * (n as int - 1) + 999_999,
            1_000_000 * (n as int - 1) + 999_999,
            1_000_000,
        );
        vstd::arithmetic::div_mod::lemma_div_multiples_vanish_fancy(
            n as int - 1,
            999_999,
            1_000_000,
        );
        assert(rank_wide as int == percentile_rank(percentile_micro as nat, n as nat));
        assert(rank_wide as int <= n as int - 1);
    }
    let rank: usize = rank_wide as usize;
    Ok(sorted[rank].clone())
}

impl PercentileDiscAggregate {
    pub open spec fn acc_model(self) -> AccState {
        AccState::Percentile(
            self.percentile_micro as nat,
            self.ordering.model(),
            self.values@.map_values(|v: Value| v.model()),
        )
    }

    /// Buffers one value of the target column.
    pub fn update(&mut self, value: &Value) -> (r: Result<(), EvalError>)
        ensures
            r is Ok,
            acc_update(old(self).acc_model(), Some(value.model())) == Ok::<
                AccState,
                EvalErrorKind,
            >(final(self).acc_model()),
    {
        let ghost vals0 = self.values@.map_values(|v: Value| v.model());
        self.values.push(value.clone());
        proof {
            assert(self.values@.map_values(|v: Value| v.model()) =~= vals0.push(value.model()));
        }
        Ok(())
    }

    /// The exact discrete percentile of the buffered values.
    pub fn finalize(&self) -> (r: Result<Value, EvalError>)
        ensures
            match r {
                Ok(v) => acc_final(self.acc_model()) == Ok::<ValueModel, EvalErrorKind>(v.model()),
                Err(e) => acc_final(self.acc_model()) == Err::<ValueModel, EvalErrorKind>(e.kind),
            },
    {
        percentile_finalize(self.percentile_micro, self.ordering, &self.values)
    }
}

impl ApproxPercentileAggregate {
    pub open spec fn acc_model(self) -> AccState {
        AccState::Percentile(
            self.percentile_micro as nat,
            self.ordering.model(),
            self.values@.map_values(|v: Value| v.model()),
        )
    }

    /// Buffers one value of the target column.
    pub fn update(&mut self, value: &Value) -> (r: Result<(), EvalError>)
        ensures
            r is Ok,
            acc_update(old(self).acc_model(), Some(value.model())) == Ok::<
                AccState,
                EvalErrorKind,
            >(final(self).acc_model()),
    {
        let ghost vals0 = self.values@.map_values(|v: Value| v.model());
        self.values.push(value.clone());
        proof {
            assert(self.values@.map_values(|v: Value| v.model()) =~= vals0.push(value.model()));
        }
        Ok(())
    }

    /// The percentile of the buffered values; this implementation buffers
    /// and answers exactly, so its error bound is zero.
    pub fn finalize(&self) -> (r: Result<Value, EvalError>)
        ensures
            match r {
                Ok(v) => acc_final(self.acc_model()) == Ok::<ValueModel, EvalErrorKind>(v.model()),
                Err(e) => acc_final(self.acc_model()) == Err::<ValueModel, EvalErrorKind>(e.kind),
            },
    {
        percentile_finalize(self.percentile_micro, self.ordering, &self.values)
    }
}


// ---------------------------------------------------------------------------
// Group-by semantics.
// ---------------------------------------------------------------------------
/// The grouping key of one record: the grouping fields' values under the
/// merged environment; a missing field is an error.
pub open spec fn group_key(fields: Seq<Seq<char>>, env: EnvModel) -> Result<
    Seq<ValueModel>,
    EvalErrorKind,
>
    decreases fields.len(),
{
    if fields.len() == 0 {
        Ok(Seq::empty())
    } else {
        match group_key(fields.drop_last(), env) {
            Err(k) => Err(k),
            Ok(vs) => match lookup_env(env, fields.last()) {
                Ok(v) => Ok(vs.push(v)),
                Err(k) => Err(k),
            },
        }
    }
}

/// The grouping keys of all records, in order.
pub open spec fn all_keys(
    fields: Seq<Seq<char>>,
    vars: EnvModel,
    src: Seq<RecordModel>,
) -> Result<Seq<Seq<ValueModel>>, EvalErrorKind>
    decreases src.len(),
{
    if src.len() == 0 {
        Ok(Seq::empty())
    } else {
        match all_keys(fields, vars, src.drop_last()) {
            Err(k) => Err(k),
            Ok(ks) => match group_key(fields, stage_env(vars, src.last())) {
                Ok(k0) => Ok(ks.push(k0)),
                Err(k) => Err(k),
            },
        }
    }
}

/// The distinct keys, each at its first occurrence, in first-seen order.
pub open spec fn dedup_first(ks: Seq<Seq<ValueModel>>) -> Seq<Seq<ValueModel>>
    decreases ks.len(),
{
    if ks.len() == 0 {
        Seq::empty()
    } else {
        let pre = dedup_first(ks.drop_last());
        if pre.contains(ks.last()) {
            pre
        } else {
            pre.push(ks.last())
        }
    }
}

/// The records whose grouping key is exactly `key`, in arrival order.
pub open spec fn bucket_of(
    fields: Seq<Seq<char>>,
    vars: EnvModel,
    src: Seq<RecordModel>,
    key: Seq<ValueModel>,
) -> Seq<RecordModel> {
    src.filter(
        |r: RecordModel|
            group_key(fields, stage_env(vars, r)) == Ok::<Seq<ValueModel>, EvalErrorKind>(key),
    )
}

/// The input a unary aggregate operand draws from one record: a value for
/// an expression, none for the wildcard.
pub open spec fn named_input(n: NamedModel, vars: EnvModel, rec: RecordModel) -> Result<
    Option<ValueModel>,
    EvalErrorKind,
> {
    match n {
        NamedModel::Expression(e, _) => match eval_expr(e, stage_env(vars, rec)) {
            Ok(v) => Ok(Some(v)),
            Err(k) => Err(k),
        },
        NamedModel::Star => Ok(None),
    }
}

/// The input an aggregate draws from one record.
pub open spec fn agg_input(a: AggregateModel, vars: EnvModel, rec: RecordModel) -> Result<
    Option<ValueModel>,
    EvalErrorKind,
> {
    match a {
        AggregateModel::Avg(n) => named_input(n, vars, rec),
        AggregateModel::Count(n) => named_input(n, vars, rec),
        AggregateModel::First(n) => named_input(n, vars, rec),
        AggregateModel::Last(n) => named_input(n, vars, rec),
        AggregateModel::Max(n) => named_input(n, vars, rec),
        AggregateModel::Min(n) => named_input(n, vars, rec),
        AggregateModel::Sum(n) => named_input(n, vars, rec),
        AggregateModel::ApproxCountDistinct(n) => named_input(n, vars, rec),
        AggregateModel::PercentileDisc(_, col, _) => match lookup_env(stage_env(vars, rec), col) {
            Ok(v) => Ok(Some(v)),
            Err(k) => Err(k),
        },
        AggregateModel::ApproxPercentile(_, col, _) => match lookup_env(stage_env(vars, rec), col) {
            Ok(v) => Ok(Some(v)),
            Err(k) => Err(k),
        },
    }
}

/// One aggregate's accumulator state after feeding a bucket's records in
/// arrival order, from its zero state.
pub open spec fn agg_fold(
    a: AggregateModel,
    vars: EnvModel,
    recs: Seq<RecordModel>,
) -> Result<AccState, EvalErrorKind>
    decreases recs.len(),
{
    if recs.len() == 0 {
        Ok(acc_init(a))
    } else {
        match agg_fold(a, vars, recs.drop_last()) {
            Err(k) => Err(k),
            Ok(st) => match agg_input(a, vars, recs.last()) {
                Err(k) => Err(k),
                Ok(inp) => acc_update(st, inp),
            },
        }
    }
}

/// One aggregate's finalized result over a bucket.
pub open spec fn agg_result(
    a: AggregateModel,
    vars: EnvModel,
    recs: Seq<RecordModel>,
) -> Result<ValueModel, EvalErrorKind> {
    match agg_fold(a, vars, recs) {
        Err(k) => Err(k),
        Ok(st) => acc_final(st),
    }
}

/// All aggregates' results over a bucket, in declared order.
pub open spec fn agg_results(
    aggs: Seq<crate::model::NamedAggregateModel>,
    vars: EnvModel,
    recs: Seq<RecordModel>,
) -> Result<Seq<ValueModel>, EvalErrorKind>
    decreases aggs.len(),
{
    if aggs.len() == 0 {
        Ok(Seq::empty())
    } else {
        match agg_results(aggs.drop_last(), vars, recs) {
            Err(k) => Err(k),
            Ok(vs) => match agg_result(aggs.last().aggregate, vars, recs) {
                Ok(v) => Ok(vs.push(v)),
                Err(k) => Err(k),
            },
        }
    }
}

/// The aggregates' output field names, in declared order; an unnamed
/// aggregate yields the empty field name.
pub open spec fn agg_names(aggs: Seq<crate::model::NamedAggregateModel>) -> Seq<Seq<char>> {
    Seq::new(aggs.len(), |i: int| crate::stream::alias_name(aggs[i].name))
}

/// The record emitted for one distinct key: the grouping values followed
/// by the aggregate results.
pub open spec fn emit_one(
    fields: Seq<Seq<char>>,
    aggs: Seq<crate::model::NamedAggregateModel>,
    vars: EnvModel,
    src: Seq<RecordModel>,
    key: Seq<ValueModel>,
) -> Result<RecordModel, EvalErrorKind> {
    match agg_results(aggs, vars, bucket_of(fields, vars, src, key)) {
        Ok(vs) => Ok(RecordModel { names: fields + agg_names(aggs), values: key + vs }),
        Err(k) => Err(k),
    }
}

/// The records emitted for a key sequence, in order.
pub open spec fn emit_keys(
    fields: Seq<Seq<char>>,
    aggs: Seq<crate::model::NamedAggregateModel>,
    vars: EnvModel,
    src: Seq<RecordModel>,
    keys: Seq<Seq<ValueModel>>,
) -> Result<Seq<RecordModel>, EvalErrorKind>
    decreases keys.len(),
{
    if keys.len() == 0 {
        Ok(Seq::empty())
    } else {
        match emit_keys(fields, aggs, vars, src, keys.drop_last()) {
            Err(k) => Err(k),
            Ok(out) => match emit_one(fields, aggs, vars, src, keys.last()) {
                Ok(r) => Ok(out.push(r)),
                Err(k) => Err(k),
            },
        }
    }
}

/// The whole group-by result: one record per distinct grouping key, in
/// first-seen key order.
pub open spec fn group_records(
    fields: Seq<Seq<char>>,
    aggs: Seq<crate::model::NamedAggregateModel>,
    vars: EnvModel,
    src: Seq<RecordModel>,
) -> Result<Seq<RecordModel>, EvalErrorKind> {
    match all_keys(fields, vars, src) {
        Err(k) => Err(k),
        Ok(ks) => emit_keys(fields, aggs, vars, src, dedup_first(ks)),
    }
}

/// The records a group-by stage yields; on any failure the stage fails
/// instead of yielding.
pub open spec fn group_output(
    fields: Seq<Seq<char>>,
    aggs: Seq<crate::model::NamedAggregateModel>,
    vars: EnvModel,
    src: Seq<RecordModel>,
) -> Seq<RecordModel> {
    match group_records(fields, aggs, vars, src) {
        Ok(s) => s,
        Err(_) => Seq::empty(),
    }
}


/// Deduplication keeps exactly the keys that occur.
proof fn lemma_dedup_contains(ks: Seq<Seq<ValueModel>>, k: Seq<ValueModel>)
    ensures
        dedup_first(ks).contains(k) <==> ks.contains(k),
    decreases ks.len(),
{
    if ks.len() > 0 {
        lemma_dedup_contains(ks.drop_last(), k);
        assert(ks.contains(k) <==> (ks.drop_last().contains(k) || ks.last() == k)) by {
            if ks.contains(k) {
                let w = choose|w: int| 0 <= w < ks.len() && ks[w] == k;
                if w < ks.len() - 1 {
                    assert(ks.drop_last()[w] == k);
                }
            }
            if ks.drop_last().contains(k) {
                let w = choose|w: int| 0 <= w < ks.drop_last().len() && ks.drop_last()[w] == k;
                assert(ks[w] == k);
            }
        }
        let pre = dedup_first(ks.drop_last());
        if !pre.contains(ks.last()) {
            assert(dedup_first(ks) == pre.push(ks.last()));
            assert(forall|j: int|
                0 <= j < pre.len() ==> pre.push(ks.last())[j] == pre[j]);
            assert(pre.push(ks.last())[pre.len() as int] == ks.last());
            assert(pre.push(ks.last()).contains(ks.last()));
            if pre.contains(k) {
                let w = choose|w: int| 0 <= w < pre.len() && pre[w] == k;
                assert(pre.push(ks.last())[w] == k);
            }
            if pre.push(ks.last()).contains(k) && k != ks.last() {
                let w = choose|w: int|
                    0 <= w < pre.push(ks.last()).len() && pre.push(ks.last())[w] == k;
                assert(pre[w] == k);
                assert(pre.contains(k));
            }
        }
    }
}

/// Deduplicated keys are pairwise distinct.
proof fn lemma_dedup_distinct(ks: Seq<Seq<ValueModel>>)
    ensures
        forall|a: int, b: int|
            0 <= a < b < dedup_first(ks).len() ==> dedup_first(ks)[a] != dedup_first(ks)[b],
    decreases ks.len(),
{
    if ks.len() > 0 {
        lemma_dedup_distinct(ks.drop_last());
        let pre = dedup_first(ks.drop_last());
        if !pre.contains(ks.last()) {
            assert forall|a: int, b: int|
                0 <= a < b < pre.push(ks.last()).len() implies pre.push(ks.last())[a] != pre.push(
                ks.last(),
            )[b] by {
                if b < pre.len() {
                } else {
                    assert(pre.push(ks.last())[b] == ks.last());
                    assert(pre.push(ks.last())[a] == pre[a]);
                    assert(pre.contains(pre[a]));
                }
            }
        }
    }
}

/// A successful key pass yields one key per record, each record's own.
proof fn lemma_all_keys_index(fields: Seq<Seq<char>>, vars: EnvModel, src: Seq<RecordModel>)
    ensures
        all_keys(fields, vars, src) matches Ok(ks) ==> ks.len() == src.len() && forall|j: int|
            0 <= j < src.len() ==> group_key(fields, stage_env(vars, src[j])) == Ok::<
                Seq<ValueModel>,
                EvalErrorKind,
            >(ks[j]),
    decreases src.len(),
{
    if src.len() > 0 {
        lemma_all_keys_index(fields, vars, src.drop_last());
        if all_keys(fields, vars, src) is Ok {
            assert(forall|j: int|
                0 <= j < src.len() - 1 ==> src.drop_last()[j] == src[j]);
        }
    }
}

/// Nothing satisfies the predicate, so the filter is empty.
proof fn lemma_filter_empty(s: Seq<RecordModel>, pred: spec_fn(RecordModel) -> bool)
    requires
        forall|i: int| 0 <= i < s.len() ==> !pred(s[i]),
    ensures
        s.filter(pred) == Seq::<RecordModel>::empty(),
    decreases s.len(),
{
    reveal(Seq::filter);
    if s.len() == 0 {
        assert(s =~= Seq::<RecordModel>::empty());
    } else {
        assert(forall|i: int| 0 <= i < s.len() - 1 ==> s.drop_last()[i] == s[i]);
        assert(!pred(s.last()));
        lemma_filter_empty(s.drop_last(), pred);
    }
}

/// Filtering after appending one element appends it exactly when it
/// satisfies the predicate.
proof fn lemma_filter_push(s: Seq<RecordModel>, x: RecordModel, pred: spec_fn(RecordModel) -> bool)
    ensures
        s.push(x).filter(pred) == (if pred(x) {
            s.filter(pred).push(x)
        } else {
            s.filter(pred)
        }),
{
    reveal(Seq::filter);
    assert(s.push(x).drop_last() =~= s);
    assert(s.push(x).last() == x);
}

/// Whether two keys hold the same values.
fn key_eq(a: &Vec<Value>, b: &Vec<Value>) -> (r: bool)
    ensures
        r == (a@.map_values(|v: Value| v.model()) == b@.map_values(|v: Value| v.model())),
{
    let ghost am = a@.map_values(|v: Value| v.model());
    let ghost bm = b@.map_values(|v: Value| v.model());
    if a.len() != b.len() {
        proof {
            assert(am.len() != bm.len());
        }
        return false;
    }
    let mut i: usize = 0;
    while i < a.len()
        invariant
            i <= a@.len(),
            a@.len() == b@.len(),
            forall|j: int| 0 <= j < i ==> am[j] == bm[j],
        decreases a@.len() - i,
    {
        if !value_eq(&a[i], &b[i]) {
            proof {
                assert(am[i as int] != bm[i as int]);
            }
            return false;
        }
        i += 1;
    }
    proof {
        assert(am =~= bm);
    }
    true
}

/// Clones a vector of values.
fn clone_value_vec(v: &Vec<Value>) -> (r: Vec<Value>)
    ensures
        r@ == v@,
{
    let mut r: Vec<Value> = Vec::new();
    let mut i: usize = 0;
    while i < v.len()
        invariant
            i <= v@.len(),
            r@ =~= v@.take(i as int),
        decreases v@.len() - i,
    {
        r.push(v[i].clone());
        i += 1;
    }
    proof {
        assert(r@ =~= v@);
    }
    r
}

/// Extracts the grouping key of one record under the stage environment.
fn group_key_exec(fields: &Vec<VariableName>, env: &Variables) -> (r: Result<
    Vec<Value>,
    EvalError,
>)
    requires
        env.wf(),
    ensures
        match r {
            Ok(key) => group_key(fields.deep_view(), env.model()) == Ok::<_, EvalErrorKind>(
                key@.map_values(|v: Value| v.model()),
            ),
            Err(e) => group_key(fields.deep_view(), env.model()) == Err::<
                Seq<ValueModel>,
                EvalErrorKind,
            >(e.kind),
        },
{
    let mut key: Vec<Value> = Vec::new();
    proof {
        assert(fields.deep_view().take(0) =~= Seq::<Seq<char>>::empty());
        assert(key@.map_values(|v: Value| v.model()) =~= Seq::<ValueModel>::empty());
    }
    let mut i: usize = 0;
    while i < fields.len()
        invariant
            i <= fields@.len(),
            group_key(fields.deep_view().take(i as int), env.model()) == Ok::<_, EvalErrorKind>(
                key@.map_values(|v: Value| v.model()),
            ),
        decreases fields@.len() - i,
    {
        proof {
            assert(fields.deep_view().take(i + 1).drop_last() =~= fields.deep_view().take(
                i as int,
            ));
            assert(fields.deep_view().take(i + 1).last() == fields.deep_view()[i as int]);
        }
        let ghost key_before = key@.map_values(|v: Value| v.model());
        match env.get(&fields[i]) {
            Some(v) => {
                key.push(v.clone());
                proof {
                    assert(key@.map_values(|v: Value| v.model()) =~= key_before.push(
                        key@.last().model(),
                    ));
                }
            },
            None => {
                proof {
                    assert(group_key(fields.deep_view().take(i + 1), env.model()) is Err);
                    lemma_group_key_err_propagates(fields.deep_view(), env.model(), i as int);
                }
                return Err(
                    EvalError::new(
                        EvalErrorKind::UndefinedVariable,
                        "grouping field not present",
                    ),
                );
            },
        }
        i += 1;
    }
    proof {
        assert(fields.deep_view().take(fields@.len() as int) =~= fields.deep_view());
    }
    Ok(key)
}

/// A key-extraction failure at any prefix settles the whole key.
proof fn lemma_group_key_err_propagates(fields: Seq<Seq<char>>, env: EnvModel, i: int)
    requires
        0 <= i < fields.len(),
        group_key(fields.take(i + 1), env) is Err,
    ensures
        group_key(fields, env) == group_key(fields.take(i + 1), env),
    decreases fields.len() - i,
{
    if i + 1 == fields.len() {
        assert(fields.take(i + 1) =~= fields);
    } else {
        assert(fields.take(i + 2).drop_last() =~= fields.take(i + 1));
        lemma_group_key_err_propagates(fields, env, i + 1);
    }
}

/// The input a unary aggregate operand draws from one record.
fn named_input_exec(named: &crate::execution::Named, variables: &Variables, rec: &Record) -> (r:
    Result<Option<Value>, EvalError>)
    requires
        variables.wf(),
        rec.wf(),
    ensures
        match r {
            Ok(o) => named_input(named.model(), variables.model(), rec.model()) == Ok::<
                Option<ValueModel>,
                EvalErrorKind,
            >(
                match o {
                    Some(v) => Some(v.model()),
                    None => None,
                },
            ),
            Err(e) => named_input(named.model(), variables.model(), rec.model()) == Err::<
                Option<ValueModel>,
                EvalErrorKind,
            >(e.kind),
        },
{
    match named {
        crate::execution::Named::Expression(e, _) => {
            let env = merge(variables.clone(), rec.to_variables());
            proof {
                assert(env.model() == stage_env(variables.model(), rec.model()));
            }
            match e.expression_value(&env) {
                Ok(v) => Ok(Some(v)),
                Err(e2) => Err(e2),
            }
        },
        crate::execution::Named::Star => Ok(None),
    }
}

/// The value of the percentile target column in one record.
fn column_input_exec(col: &VariableName, variables: &Variables, rec: &Record) -> (r: Result<
    Value,
    EvalError,
>)
    requires
        variables.wf(),
        rec.wf(),
    ensures
        match r {
            Ok(v) => lookup_env(stage_env(variables.model(), rec.model()), col@) == Ok::<
                ValueModel,
                EvalErrorKind,
            >(v.model()),
            Err(e) => lookup_env(stage_env(variables.model(), rec.model()), col@) == Err::<
                ValueModel,
                EvalErrorKind,
            >(e.kind),
        },
{
    let env = merge(variables.clone(), rec.to_variables());
    proof {
        assert(env.model() == stage_env(variables.model(), rec.model()));
    }
    match env.get(col) {
        Some(v) => Ok(v.clone()),
        None => Err(
            EvalError::new(EvalErrorKind::UndefinedVariable, "percentile column not present"),
        ),
    }
}



/// An aggregation failure at any prefix of the bucket settles the fold.
proof fn lemma_agg_fold_err_propagates(
    a: AggregateModel,
    vars: EnvModel,
    recs: Seq<RecordModel>,
    j: int,
)
    requires
        0 <= j < recs.len(),
        agg_fold(a, vars, recs.take(j + 1)) is Err,
    ensures
        agg_fold(a, vars, recs) == agg_fold(a, vars, recs.take(j + 1)),
    decreases recs.len() - j,
{
    if j + 1 == recs.len() {
        assert(recs.take(j + 1) =~= recs);
    } else {
        assert(recs.take(j + 2).drop_last() =~= recs.take(j + 1));
        lemma_agg_fold_err_propagates(a, vars, recs, j + 1);
    }
}

/// An aggregate failure at any prefix of the aggregate list settles the
/// results.
proof fn lemma_agg_results_err_propagates(
    aggs: Seq<crate::model::NamedAggregateModel>,
    vars: EnvModel,
    recs: Seq<RecordModel>,
    j: int,
)
    requires
        0 <= j < aggs.len(),
        agg_results(aggs.take(j + 1), vars, recs) is Err,
    ensures
        agg_results(aggs, vars, recs) == agg_results(aggs.take(j + 1), vars, recs),
    decreases aggs.len() - j,
{
    if j + 1 == aggs.len() {
        assert(aggs.take(j + 1) =~= aggs);
    } else {
        assert(aggs.take(j + 2).drop_last() =~= aggs.take(j + 1));
        lemma_agg_results_err_propagates(aggs, vars, recs, j + 1);
    }
}

/// A key failure at any prefix of the rows settles the key pass.
proof fn lemma_all_keys_err_propagates(
    fields: Seq<Seq<char>>,
    vars: EnvModel,
    src: Seq<RecordModel>,
    i: int,
)
    requires
        0 <= i < src.len(),
        all_keys(fields, vars, src.take(i + 1)) is Err,
    ensures
        all_keys(fields, vars, src) == all_keys(fields, vars, src.take(i + 1)),
    decreases src.len() - i,
{
    if i + 1 == src.len() {
        assert(src.take(i + 1) =~= src);
    } else {
        assert(src.take(i + 2).drop_last() =~= src.take(i + 1));
        lemma_all_keys_err_propagates(fields, vars, src, i + 1);
    }
}

/// An emission failure at any prefix of the keys settles the emission.
proof fn lemma_emit_keys_err_propagates(
    fields: Seq<Seq<char>>,
    aggs: Seq<crate::model::NamedAggregateModel>,
    vars: EnvModel,
    src: Seq<RecordModel>,
    keys: Seq<Seq<ValueModel>>,
    g: int,
)
    requires
        0 <= g < keys.len(),
        emit_keys(fields, aggs, vars, src, keys.take(g + 1)) is Err,
    ensures
        emit_keys(fields, aggs, vars, src, keys) == emit_keys(
            fields,
            aggs,
            vars,
            src,
            keys.take(g + 1),
        ),
    decreases keys.len() - g,
{
    if g + 1 == keys.len() {
        assert(keys.take(g + 1) =~= keys);
    } else {
        assert(keys.take(g + 2).drop_last() =~= keys.take(g + 1));
        lemma_emit_keys_err_propagates(fields, aggs, vars, src, keys, g + 1);
    }
}

/// Runs one running-average aggregate over a bucket.
fn run_avg(named: &crate::execution::Named, variables: &Variables, recs: &Vec<Record>) -> (r:
    Result<Value, EvalError>)
    requires
        variables.wf(),
        forall|i: int| 0 <= i < recs@.len() ==> (#[trigger] recs@[i]).wf(),
    ensures
        ({
            let am = AggregateModel::Avg(named.model());
            let spec_r = agg_result(am, variables.model(), recs@.map_values(|x: Record| x.model()));
            match r {
                Ok(v) => spec_r == Ok::<ValueModel, EvalErrorKind>(v.model()),
                Err(e) => spec_r == Err::<ValueModel, EvalErrorKind>(e.kind),
            }
        }),
{
    let ghost am = AggregateModel::Avg(named.model());
    let ghost vm = variables.model();
    let ghost recsm = recs@.map_values(|x: Record| x.model());
    proof {
        assert(recsm.take(0) =~= Seq::<RecordModel>::empty());
    }
    let mut acc = AvgAggregate::new();
    let mut j: usize = 0;
    while j < recs.len()
        invariant
            j <= recs@.len(),
            recsm == recs@.map_values(|x: Record| x.model()),
            recsm.len() == recs@.len(),
            agg_fold(am, vm, recsm.take(j as int)) == Ok::<AccState, EvalErrorKind>(
                acc.acc_model(),
            ),
        decreases recs@.len() - j,
    {
        proof {
            assert(recsm.take(j + 1).drop_last() =~= recsm.take(j as int));
            assert(recsm.take(j + 1).last() == recsm[j as int]);
        }
        let inp = match named_input_exec(named, variables, &recs[j]) {
            Ok(o) => o,
            Err(e) => {
                proof {
                    assert(agg_fold(am, vm, recsm.take(j + 1)) == Err::<AccState, EvalErrorKind>(
                        e.kind,
                    ));
                    lemma_agg_fold_err_propagates(am, vm, recsm, j as int);
                }
                return Err(e);
            },
        };
        match inp {
            Some(v) => {
                match acc.update(&v) {
                    Ok(_) => (),
                    Err(e) => {
                        proof {
                            assert(agg_fold(am, vm, recsm.take(j + 1)) == Err::<
                                AccState,
                                EvalErrorKind,
                            >(e.kind));
                            lemma_agg_fold_err_propagates(am, vm, recsm, j as int);
                        }
                        return Err(e);
                    },
                }
            },
            None => {
                let e = EvalError::new(
                    EvalErrorKind::AggregateDomain,
                    "this aggregate needs a value, not the wildcard",
                );
                proof {
                    assert(agg_fold(am, vm, recsm.take(j + 1)) == Err::<AccState, EvalErrorKind>(
                        e.kind,
                    ));
                    lemma_agg_fold_err_propagates(am, vm, recsm, j as int);
                }
                return Err(e);
            },
        }
        j += 1;
    }
    proof {
        assert(recsm.take(recs@.len() as int) =~= recsm);
    }
    acc.finalize()
}

/// Runs one running-sum aggregate over a bucket.
fn run_sum(named: &crate::execution::Named, variables: &Variables, recs: &Vec<Record>) -> (r:
    Result<Value, EvalError>)
    requires
        variables.wf(),
        forall|i: int| 0 <= i < recs@.len() ==> (#[trigger] recs@[i]).wf(),
    ensures
        ({
            let am = AggregateModel::Sum(named.model());
            let spec_r = agg_result(am, variables.model(), recs@.map_values(|x: Record| x.model()));
            match r {
                Ok(v) => spec_r == Ok::<ValueModel, EvalErrorKind>(v.model()),
                Err(e) => spec_r == Err::<ValueModel, EvalErrorKind>(e.kind),
            }
        }),
{
    let ghost am = AggregateModel::Sum(named.model());
    let ghost vm = variables.model();
    let ghost recsm = recs@.map_values(|x: Record| x.model());
    proof {
        assert(recsm.take(0) =~= Seq::<RecordModel>::empty());
    }
    let mut acc = SumAggregate::new();
    let mut j: usize = 0;
    while j < recs.len()
        invariant
            j <= recs@.len(),
            recsm == recs@.map_values(|x: Record| x.model()),
            recsm.len() == recs@.len(),
            agg_fold(am, vm, recsm.take(j as int)) == Ok::<AccState, EvalErrorKind>(
                acc.acc_model(),
            ),
        decreases recs@.len() - j,
    {
        proof {
            assert(recsm.take(j + 1).drop_last() =~= recsm.take(j as int));
            assert(recsm.take(j + 1).last() == recsm[j as int]);
        }
        let inp = match named_input_exec(named, variables, &recs[j]) {
            Ok(o) => o,
            Err(e) => {
                proof {
                    assert(agg_fold(am, vm, recsm.take(j + 1)) == Err::<AccState, EvalErrorKind>(
                        e.kind,
                    ));
                    lemma_agg_fold_err_propagates(am, vm, recsm, j as int);
                }
                return Err(e);
            },
        };
        match inp {
            Some(v) => {
                match acc.update(&v) {
                    Ok(_) => (),
                    Err(e) => {
                        proof {
                            assert(agg_fold(am, vm, recsm.take(j + 1)) == Err::<
                                AccState,
                                EvalErrorKind,
                            >(e.kind));
                            lemma_agg_fold_err_propagates(am, vm, recsm, j as int);
                        }
                        return Err(e);
                    },
                }
            },
            None => {
                let e = EvalError::new(
                    EvalErrorKind::AggregateDomain,
                    "this aggregate needs a value, not the wildcard",
                );
                proof {
                    assert(agg_fold(am, vm, recsm.take(j + 1)) == Err::<AccState, EvalErrorKind>(
                        e.kind,
                    ));
                    lemma_agg_fold_err_propagates(am, vm, recsm, j as int);
                }
                return Err(e);
            },
        }
        j += 1;
    }
    proof {
        assert(recsm.take(recs@.len() as int) =~= recsm);
    }
    acc.finalize()
}

/// Runs one first-value aggregate over a bucket.
fn run_first(named: &crate::execution::Named, variables: &Variables, recs: &Vec<Record>) -> (r:
    Result<Value, EvalError>)
    requires
        variables.wf(),
        forall|i: int| 0 <= i < recs@.len() ==> (#[trigger] recs@[i]).wf(),
    ensures
        ({
            let am = AggregateModel::First(named.model());
            let spec_r = agg_result(am, variables.model(), recs@.map_values(|x: Record| x.model()));
            match r {
                Ok(v) => spec_r == Ok::<ValueModel, EvalErrorKind>(v.model()),
                Err(e) => spec_r == Err::<ValueModel, EvalErrorKind>(e.kind),
            }
        }),
{
    let ghost am = AggregateModel::First(named.model());
    let ghost vm = variables.model();
    let ghost recsm = recs@.map_values(|x: Record| x.model());
    proof {
        assert(recsm.take(0) =~= Seq::<RecordModel>::empty());
    }
    let mut acc = FirstAggregate::new();
    let mut j: usize = 0;
    while j < recs.len()
        invariant
            j <= recs@.len(),
            recsm == recs@.map_values(|x: Record| x.model()),
            recsm.len() == recs@.len(),
            agg_fold(am, vm, recsm.take(j as int)) == Ok::<AccState, EvalErrorKind>(
                acc.acc_model(),
            ),
        decreases recs@.len() - j,
    {
        proof {
            assert(recsm.take(j + 1).drop_last() =~= recsm.take(j as int));
            assert(recsm.take(j + 1).last() == recsm[j as int]);
        }
        let inp = match named_input_exec(named, variables, &recs[j]) {
            Ok(o) => o,
            Err(e) => {
                proof {
                    assert(agg_fold(am, vm, recsm.take(j + 1)) == Err::<AccState, EvalErrorKind>(
                        e.kind,
                    ));
                    lemma_agg_fold_err_propagates(am, vm, recsm, j as int);
                }
                return Err(e);
            },
        };
        match inp {
            Some(v) => {
                match acc.update(&v) {
                    Ok(_) => (),
                    Err(e) => {
                        proof {
                            assert(agg_fold(am, vm, recsm.take(j + 1)) == Err::<
                                AccState,
                                EvalErrorKind,
                            >(e.kind));
                            lemma_agg_fold_err_propagates(am, vm, recsm, j as int);
                        }
                        return Err(e);
                    },
                }
            },
            None => {
                let e = EvalError::new(
                    EvalErrorKind::AggregateDomain,
                    "this aggregate needs a value, not the wildcard",
                );
                proof {
                    assert(agg_fold(am, vm, recsm.take(j + 1)) == Err::<AccState, EvalErrorKind>(
                        e.kind,
                    ));
                    lemma_agg_fold_err_propagates(am, vm, recsm, j as int);
                }
                return Err(e);
            },
        }
        j += 1;
    }
    proof {
        assert(recsm.take(recs@.len() as int) =~= recsm);
    }
    acc.finalize()
}

/// Runs one last-value aggregate over a bucket.
fn run_last(named: &crate::execution::Named, variables: &Variables, recs: &Vec<Record>) -> (r:
    Result<Value, EvalError>)
    requires
        variables.wf(),
        forall|i: int| 0 <= i < recs@.len() ==> (#[trigger] recs@[i]).wf(),
    ensures
        ({
            let am = AggregateModel::Last(named.model());
            let spec_r = agg_result(am, variables.model(), recs@.map_values(|x: Record| x.model()));
            match r {
                Ok(v) => spec_r == Ok::<ValueModel, EvalErrorKind>(v.model()),
                Err(e) => spec_r == Err::<ValueModel, EvalErrorKind>(e.kind),
            }
        }),
{
    let ghost am = AggregateModel::Last(named.model());
    let ghost vm = variables.model();
    let ghost recsm = recs@.map_values(|x: Record| x.model());
    proof {
        assert(recsm.take(0) =~= Seq::<RecordModel>::empty());
    }
    let mut acc = LastAggregate::new();
    let mut j: usize = 0;
    while j < recs.len()
        invariant
            j <= recs@.len(),
            recsm == recs@.map_values(|x: Record| x.model()),
            recsm.len() == recs@.len(),
            agg_fold(am, vm, recsm.take(j as int)) == Ok::<AccState, EvalErrorKind>(
                acc.acc_model(),
            ),
        decreases recs@.len() - j,
    {
        proof {
            assert(recsm.take(j + 1).drop_last() =~= recsm.take(j as int));
            assert(recsm.take(j + 1).last() == recsm[j as int]);
        }
        let inp = match named_input_exec(named, variables, &recs[j]) {
            Ok(o) => o,
            Err(e) => {
                proof {
                    assert(agg_fold(am, vm, recsm.take(j + 1)) == Err::<AccState, EvalErrorKind>(
                        e.kind,
                    ));
                    lemma_agg_fold_err_propagates(am, vm, recsm, j as int);
                }
                return Err(e);
            },
        };
        match inp {
            Some(v) => {
                match acc.update(&v) {
                    Ok(_) => (),
                    Err(e) => {
                        proof {
                            assert(agg_fold(am, vm, recsm.take(j + 1)) == Err::<
                                AccState,
                                EvalErrorKind,
                            >(e.kind));
                            lemma_agg_fold_err_propagates(am, vm, recsm, j as int);
                        }
                        return Err(e);
                    },
                }
            },
            None => {
                let e = EvalError::new(
                    EvalErrorKind::AggregateDomain,
                    "this aggregate needs a value, not the wildcard",
                );
                proof {
                    assert(agg_fold(am, vm, recsm.take(j + 1)) == Err::<AccState, EvalErrorKind>(
                        e.kind,
                    ));
                    lemma_agg_fold_err_propagates(am, vm, recsm, j as int);
                }
                return Err(e);
            },
        }
        j += 1;
    }
    proof {
        assert(recsm.take(recs@.len() as int) =~= recsm);
    }
    acc.finalize()
}

/// Runs one minimum aggregate over a bucket.
fn run_min(named: &crate::execution::Named, variables: &Variables, recs: &Vec<Record>) -> (r:
    Result<Value, EvalError>)
    requires
        variables.wf(),
        forall|i: int| 0 <= i < recs@.len() ==> (#[trigger] recs@[i]).wf(),
    ensures
        ({
            let am = AggregateModel::Min(named.model());
            let spec_r = agg_result(am, variables.model(), recs@.map_values(|x: Record| x.model()));
            match r {
                Ok(v) => spec_r == Ok::<ValueModel, EvalErrorKind>(v.model()),
                Err(e) => spec_r == Err::<ValueModel, EvalErrorKind>(e.kind),
            }
        }),
{
    let ghost am = AggregateModel::Min(named.model());
    let ghost vm = variables.model();
    let ghost recsm = recs@.map_values(|x: Record| x.model());
    proof {
        assert(recsm.take(0) =~= Seq::<RecordModel>::empty());
    }
    let mut acc = MinAggregate::new();
    let mut j: usize = 0;
    while j < recs.len()
        invariant
            j <= recs@.len(),
            recsm == recs@.map_values(|x: Record| x.model()),
            recsm.len() == recs@.len(),
            agg_fold(am, vm, recsm.take(j as int)) == Ok::<AccState, EvalErrorKind>(
                acc.acc_model(),
            ),
        decreases recs@.len() - j,
    {
        proof {
            assert(recsm.take(j + 1).drop_last() =~= recsm.take(j as int));
            assert(recsm.take(j + 1).last() == recsm[j as int]);
        }
        let inp = match named_input_exec(named, variables, &recs[j]) {
            Ok(o) => o,
            Err(e) => {
                proof {
                    assert(agg_fold(am, vm, recsm.take(j + 1)) == Err::<AccState, EvalErrorKind>(
                        e.kind,
                    ));
                    lemma_agg_fold_err_propagates(am, vm, recsm, j as int);
                }
                return Err(e);
            },
        };
        match inp {
            Some(v) => {
                match acc.update(&v) {
                    Ok(_) => (),
                    Err(e) => {
                        proof {
                            assert(agg_fold(am, vm, recsm.take(j + 1)) == Err::<
                                AccState,
                                EvalErrorKind,
                            >(e.kind));
                            lemma_agg_fold_err_propagates(am, vm, recsm, j as int);
                        }
                        return Err(e);
                    },
                }
            },
            None => {
                let e = EvalError::new(
                    EvalErrorKind::AggregateDomain,
                    "this aggregate needs a value, not the wildcard",
                );
                proof {
                    assert(agg_fold(am, vm, recsm.take(j + 1)) == Err::<AccState, EvalErrorKind>(
                        e.kind,
                    ));
                    lemma_agg_fold_err_propagates(am, vm, recsm, j as int);
                }
                return Err(e);
            },
        }
        j += 1;
    }
    proof {
        assert(recsm.take(recs@.len() as int) =~= recsm);
    }
    acc.finalize()
}

/// Runs one maximum aggregate over a bucket.
fn run_max(named: &crate::execution::Named, variables: &Variables, recs: &Vec<Record>) -> (r:
    Result<Value, EvalError>)
    requires
        variables.wf(),
        forall|i: int| 0 <= i < recs@.len() ==> (#[trigger] recs@[i]).wf(),
    ensures
        ({
            let am = AggregateModel::Max(named.model());
            let spec_r = agg_result(am, variables.model(), recs@.map_values(|x: Record| x.model()));
            match r {
                Ok(v) => spec_r == Ok::<ValueModel, EvalErrorKind>(v.model()),
                Err(e) => spec_r == Err::<ValueModel, EvalErrorKind>(e.kind),
            }
        }),
{
    let ghost am = AggregateModel::Max(named.model());
    let ghost vm = variables.model();
    let ghost recsm = recs@.map_values(|x: Record| x.model());
    proof {
        assert(recsm.take(0) =~= Seq::<RecordModel>::empty());
    }
    let mut acc = MaxAggregate::new();
    let mut j: usize = 0;
    while j < recs.len()
        invariant
            j <= recs@.len(),
            recsm == recs@.map_values(|x: Record| x.model()),
            recsm.len() == recs@.len(),
            agg_fold(am, vm, recsm.take(j as int)) == Ok::<AccState, EvalErrorKind>(
                acc.acc_model(),
            ),
        decreases recs@.len() - j,
    {
        proof {
            assert(recsm.take(j + 1).drop_last() =~= recsm.take(j as int));
            assert(recsm.take(j + 1).last() == recsm[j as int]);
        }
        let inp = match named_input_exec(named, variables, &recs[j]) {
            Ok(o) => o,
            Err(e) => {
                proof {
                    assert(agg_fold(am, vm, recsm.take(j + 1)) == Err::<AccState, EvalErrorKind>(
                        e.kind,
                    ));
                    lemma_agg_fold_err_propagates(am, vm, recsm, j as int);
                }
                return Err(e);
            },
        };
        match inp {
            Some(v) => {
                match acc.update(&v) {
                    Ok(_) => (),
                    Err(e) => {
                        proof {
                            assert(agg_fold(am, vm, recsm.take(j + 1)) == Err::<
                                AccState,
                                EvalErrorKind,
                            >(e.kind));
                            lemma_agg_fold_err_propagates(am, vm, recsm, j as int);
                        }
                        return Err(e);
                    },
                }
            },
            None => {
                let e = EvalError::new(
                    EvalErrorKind::AggregateDomain,
                    "this aggregate needs a value, not the wildcard",
                );
                proof {
                    assert(agg_fold(am, vm, recsm.take(j + 1)) == Err::<AccState, EvalErrorKind>(
                        e.kind,
                    ));
                    lemma_agg_fold_err_propagates(am, vm, recsm, j as int);
                }
                return Err(e);
            },
        }
        j += 1;
    }
    proof {
        assert(recsm.take(recs@.len() as int) =~= recsm);
    }
    acc.finalize()
}

/// Runs one distinct-count aggregate over a bucket.
fn run_distinct(named: &crate::execution::Named, variables: &Variables, recs: &Vec<Record>) -> (r:
    Result<Value, EvalError>)
    requires
        variables.wf(),
        forall|i: int| 0 <= i < recs@.len() ==> (#[trigger] recs@[i]).wf(),
    ensures
        ({
            let am = AggregateModel::ApproxCountDistinct(named.model());
            let spec_r = agg_result(am, variables.model(), recs@.map_values(|x: Record| x.model()));
            match r {
                Ok(v) => spec_r == Ok::<ValueModel, EvalErrorKind>(v.model()),
                Err(e) => spec_r == Err::<ValueModel, EvalErrorKind>(e.kind),
            }
        }),
{
    let ghost am = AggregateModel::ApproxCountDistinct(named.model());
    let ghost vm = variables.model();
    let ghost recsm = recs@.map_values(|x: Record| x.model());
    proof {
        assert(recsm.take(0) =~= Seq::<RecordModel>::empty());
    }
    let mut acc = ApproxCountDistinctAggregate::new();
    proof {
        assert(acc.acc_model() == acc_init(am)) by {
            assert(acc.seen@.map_values(|v: Value| v.model()) =~= Seq::<ValueModel>::empty());
        }
    }
    let mut j: usize = 0;
    while j < recs.len()
        invariant
            j <= recs@.len(),
            recsm == recs@.map_values(|x: Record| x.model()),
            recsm.len() == recs@.len(),
            agg_fold(am, vm, recsm.take(j as int)) == Ok::<AccState, EvalErrorKind>(
                acc.acc_model(),
            ),
        decreases recs@.len() - j,
    {
        proof {
            assert(recsm.take(j + 1).drop_last() =~= recsm.take(j as int));
            assert(recsm.take(j + 1).last() == recsm[j as int]);
        }
        let inp = match named_input_exec(named, variables, &recs[j]) {
            Ok(o) => o,
            Err(e) => {
                proof {
                    assert(agg_fold(am, vm, recsm.take(j + 1)) == Err::<AccState, EvalErrorKind>(
                        e.kind,
                    ));
                    lemma_agg_fold_err_propagates(am, vm, recsm, j as int);
                }
                return Err(e);
            },
        };
        match inp {
            Some(v) => {
                match acc.update(&v) {
                    Ok(_) => (),
                    Err(e) => {
                        proof {
                            assert(agg_fold(am, vm, recsm.take(j + 1)) == Err::<
                                AccState,
                                EvalErrorKind,
                            >(e.kind));
                            lemma_agg_fold_err_propagates(am, vm, recsm, j as int);
                        }
                        return Err(e);
                    },
                }
            },
            None => {
                let e = EvalError::new(
                    EvalErrorKind::AggregateDomain,
                    "this aggregate needs a value, not the wildcard",
                );
                proof {
                    assert(agg_fold(am, vm, recsm.take(j + 1)) == Err::<AccState, EvalErrorKind>(
                        e.kind,
                    ));
                    lemma_agg_fold_err_propagates(am, vm, recsm, j as int);
                }
                return Err(e);
            },
        }
        j += 1;
    }
    proof {
        assert(recsm.take(recs@.len() as int) =~= recsm);
    }
    acc.finalize()
}

/// Runs one count aggregate over a bucket; it counts every record whose
/// operand evaluates, whatever the value.
fn run_count(named: &crate::execution::Named, variables: &Variables, recs: &Vec<Record>) -> (r:
    Result<Value, EvalError>)
    requires
        variables.wf(),
        forall|i: int| 0 <= i < recs@.len() ==> (#[trigger] recs@[i]).wf(),
    ensures
        ({
            let am = AggregateModel::Count(named.model());
            let spec_r = agg_result(am, variables.model(), recs@.map_values(|x: Record| x.model()));
            match r {
                Ok(v) => spec_r == Ok::<ValueModel, EvalErrorKind>(v.model()),
                Err(e) => spec_r == Err::<ValueModel, EvalErrorKind>(e.kind),
            }
        }),
{
    let ghost am = AggregateModel::Count(named.model());
    let ghost vm = variables.model();
    let ghost recsm = recs@.map_values(|x: Record| x.model());
    proof {
        assert(recsm.take(0) =~= Seq::<RecordModel>::empty());
    }
    let mut acc = CountAggregate::new();
    let mut j: usize = 0;
    while j < recs.len()
        invariant
            j <= recs@.len(),
            recsm == recs@.map_values(|x: Record| x.model()),
            recsm.len() == recs@.len(),
            agg_fold(am, vm, recsm.take(j as int)) == Ok::<AccState, EvalErrorKind>(
                acc.acc_model(),
            ),
        decreases recs@.len() - j,
    {
        proof {
            assert(recsm.take(j + 1).drop_last() =~= recsm.take(j as int));
            assert(recsm.take(j + 1).last() == recsm[j as int]);
        }
        let inp = match named_input_exec(named, variables, &recs[j]) {
            Ok(o) => o,
            Err(e) => {
                proof {
                    assert(agg_fold(am, vm, recsm.take(j + 1)) == Err::<AccState, EvalErrorKind>(
                        e.kind,
                    ));
                    lemma_agg_fold_err_propagates(am, vm, recsm, j as int);
                }
                return Err(e);
            },
        };
        match acc.update() {
            Ok(_) => (),
            Err(e) => {
                proof {
                    assert(agg_fold(am, vm, recsm.take(j + 1)) == Err::<AccState, EvalErrorKind>(
                        e.kind,
                    ));
                    lemma_agg_fold_err_propagates(am, vm, recsm, j as int);
                }
                return Err(e);
            },
        }
        j += 1;
    }
    proof {
        assert(recsm.take(recs@.len() as int) =~= recsm);
    }
    acc.finalize()
}

/// Runs one discrete-percentile aggregate over a bucket.
fn run_percentile_disc(
    acc0: &PercentileDiscAggregate,
    col: &VariableName,
    variables: &Variables,
    recs: &Vec<Record>,
) -> (r: Result<Value, EvalError>)
    requires
        variables.wf(),
        forall|i: int| 0 <= i < recs@.len() ==> (#[trigger] recs@[i]).wf(),
    ensures
        ({
            let am = AggregateModel::PercentileDisc(acc0.percentile_micro as nat, col@, acc0.ordering.model());
            let spec_r = agg_result(am, variables.model(), recs@.map_values(|x: Record| x.model()));
            match r {
                Ok(v) => spec_r == Ok::<ValueModel, EvalErrorKind>(v.model()),
                Err(e) => spec_r == Err::<ValueModel, EvalErrorKind>(e.kind),
            }
        }),
{
    let ghost am = AggregateModel::PercentileDisc(acc0.percentile_micro as nat, col@, acc0.ordering.model());
    let ghost vm = variables.model();
    let ghost recsm = recs@.map_values(|x: Record| x.model());
    proof {
        assert(recsm.take(0) =~= Seq::<RecordModel>::empty());
    }
    let mut acc = PercentileDiscAggregate::new(acc0.percentile_micro, acc0.ordering);
    proof {
        assert(acc.acc_model() == acc_init(am)) by {
            assert(acc.values@.map_values(|v: Value| v.model()) =~= Seq::<ValueModel>::empty());
        }
    }
    let mut j: usize = 0;
    while j < recs.len()
        invariant
            j <= recs@.len(),
            recsm == recs@.map_values(|x: Record| x.model()),
            recsm.len() == recs@.len(),
            agg_fold(am, vm, recsm.take(j as int)) == Ok::<AccState, EvalErrorKind>(
                acc.acc_model(),
            ),
        decreases recs@.len() - j,
    {
        proof {
            assert(recsm.take(j + 1).drop_last() =~= recsm.take(j as int));
            assert(recsm.take(j + 1).last() == recsm[j as int]);
        }
        let v = match column_input_exec(col, variables, &recs[j]) {
            Ok(v) => v,
            Err(e) => {
                proof {
                    assert(agg_fold(am, vm, recsm.take(j + 1)) == Err::<AccState, EvalErrorKind>(
                        e.kind,
                    ));
                    lemma_agg_fold_err_propagates(am, vm, recsm, j as int);
                }
                return Err(e);
            },
        };
        match acc.update(&v) {
            Ok(_) => (),
            Err(e) => {
                return Err(e);
            },
        }
        j += 1;
    }
    proof {
        assert(recsm.take(recs@.len() as int) =~= recsm);
    }
    acc.finalize()
}

/// Runs one streaming-percentile aggregate over a bucket.
fn run_approx_percentile(
    acc0: &ApproxPercentileAggregate,
    col: &VariableName,
    variables: &Variables,
    recs: &Vec<Record>,
) -> (r: Result<Value, EvalError>)
    requires
        variables.wf(),
        forall|i: int| 0 <= i < recs@.len() ==> (#[trigger] recs@[i]).wf(),
    ensures
        ({
            let am = AggregateModel::ApproxPercentile(acc0.percentile_micro as nat, col@, acc0.ordering.model());
            let spec_r = agg_result(am, variables.model(), recs@.map_values(|x: Record| x.model()));
            match r {
                Ok(v) => spec_r == Ok::<ValueModel, EvalErrorKind>(v.model()),
                Err(e) => spec_r == Err::<ValueModel, EvalErrorKind>(e.kind),
            }
        }),
{
    let ghost am = AggregateModel::ApproxPercentile(acc0.percentile_micro as nat, col@, acc0.ordering.model());
    let ghost vm = variables.model();
    let ghost recsm = recs@.map_values(|x: Record| x.model());
    proof {
        assert(recsm.take(0) =~= Seq::<RecordModel>::empty());
    }
    let mut acc = ApproxPercentileAggregate::new(acc0.percentile_micro, acc0.ordering);
    proof {
        assert(acc.acc_model() == acc_init(am)) by {
            assert(acc.values@.map_values(|v: Value| v.model()) =~= Seq::<ValueModel>::empty());
        }
    }
    let mut j: usize = 0;
    while j < recs.len()
        invariant
            j <= recs@.len(),
            recsm == recs@.map_values(|x: Record| x.model()),
            recsm.len() == recs@.len(),
            agg_fold(am, vm, recsm.take(j as int)) == Ok::<AccState, EvalErrorKind>(
                acc.acc_model(),
            ),
        decreases recs@.len() - j,
    {
        proof {
            assert(recsm.take(j + 1).drop_last() =~= recsm.take(j as int));
            assert(recsm.take(j + 1).last() == recsm[j as int]);
        }
        let v = match column_input_exec(col, variables, &recs[j]) {
            Ok(v) => v,
            Err(e) => {
                proof {
                    assert(agg_fold(am, vm, recsm.take(j + 1)) == Err::<AccState, EvalErrorKind>(
                        e.kind,
                    ));
                    lemma_agg_fold_err_propagates(am, vm, recsm, j as int);
                }
                return Err(e);
            },
        };
        match acc.update(&v) {
            Ok(_) => (),
            Err(e) => {
                return Err(e);
            },
        }
        j += 1;
    }
    proof {
        assert(recsm.take(recs@.len() as int) =~= recsm);
    }
    acc.finalize()
}

/// Runs one aggregate over a bucket: a fresh zero-state accumulator is fed
/// every record's input in arrival order and finalized. A failure is
/// exactly the fold's failure, with its kind.
fn run_aggregate(
    aggregate: &crate::execution::Aggregate,
    variables: &Variables,
    recs: &Vec<Record>,
) -> (r: Result<Value, EvalError>)
    requires
        variables.wf(),
        forall|i: int| 0 <= i < recs@.len() ==> (#[trigger] recs@[i]).wf(),
    ensures
        match r {
            Ok(v) => agg_result(
                aggregate.model(),
                variables.model(),
                recs@.map_values(|x: Record| x.model()),
            ) == Ok::<ValueModel, EvalErrorKind>(v.model()),
            Err(e) => agg_result(
                aggregate.model(),
                variables.model(),
                recs@.map_values(|x: Record| x.model()),
            ) == Err::<ValueModel, EvalErrorKind>(e.kind),
        },
{
    match aggregate {
        crate::execution::Aggregate::Avg(_, named) => run_avg(named, variables, recs),
        crate::execution::Aggregate::Sum(_, named) => run_sum(named, variables, recs),
        crate::execution::Aggregate::First(_, named) => run_first(named, variables, recs),
        crate::execution::Aggregate::Last(_, named) => run_last(named, variables, recs),
        crate::execution::Aggregate::Min(_, named) => run_min(named, variables, recs),
        crate::execution::Aggregate::Max(_, named) => run_max(named, variables, recs),
        crate::execution::Aggregate::ApproxCountDistinct(_, named) => run_distinct(named, variables, recs),
        crate::execution::Aggregate::Count(_, named) => run_count(named, variables, recs),
        crate::execution::Aggregate::PercentileDisc(acc0, col) => run_percentile_disc(acc0, col, variables, recs),
        crate::execution::Aggregate::ApproxPercentile(acc0, col) => run_approx_percentile(acc0, col, variables, recs),
    }
}

/// The keys of the buckets, in order.
pub open spec fn bucket_keys(bs: Seq<(Vec<Value>, Vec<Record>)>) -> Seq<Seq<ValueModel>> {
    bs.map_values(|b: (Vec<Value>, Vec<Record>)| b.0@.map_values(|v: Value| v.model()))
}

/// Buckets the rows by grouping key in first-seen key order, runs every
/// aggregate over every bucket, and emits one record per distinct key.
#[verifier::rlimit(100)]
fn compute_groups(
    fields: &Vec<VariableName>,
    aggs: &Vec<crate::execution::NamedAggregate>,
    variables: &Variables,
    rows: &Vec<Record>,
) -> (r: Result<Vec<Record>, EvalError>)
    requires
        variables.wf(),
        forall|i: int| 0 <= i < rows@.len() ==> (#[trigger] rows@[i]).wf(),
    ensures
        match r {
            Ok(out) => {
                &&& group_records(
                    fields.deep_view(),
                    crate::execution::named_agg_vec_model(aggs@),
                    variables.model(),
                    rows@.map_values(|x: Record| x.model()),
                ) == Ok::<Seq<RecordModel>, EvalErrorKind>(
                    out@.map_values(|x: Record| x.model()),
                )
                &&& forall|i: int| 0 <= i < out@.len() ==> (#[trigger] out@[i]).wf()
            },
            Err(e) => group_records(
                fields.deep_view(),
                crate::execution::named_agg_vec_model(aggs@),
                variables.model(),
                rows@.map_values(|x: Record| x.model()),
            ) == Err::<Seq<RecordModel>, EvalErrorKind>(e.kind),
        },
{
    let ghost fm = fields.deep_view();
    let ghost am = crate::execution::named_agg_vec_model(aggs@);
    let ghost vm = variables.model();
    let ghost rowsm = rows@.map_values(|x: Record| x.model());
    let mut buckets: Vec<(Vec<Value>, Vec<Record>)> = Vec::new();
    let ghost mut ksm = Seq::<Seq<ValueModel>>::empty();
    proof {
        assert(rowsm.take(0) =~= Seq::<RecordModel>::empty());
        assert(bucket_keys(buckets@) =~= Seq::<Seq<ValueModel>>::empty());
        assert(dedup_first(ksm) =~= Seq::<Seq<ValueModel>>::empty());
    }
    let mut i: usize = 0;
    while i < rows.len()
        invariant
            i <= rows@.len(),
            rowsm == rows@.map_values(|x: Record| x.model()),
            rowsm.len() == rows@.len(),
            all_keys(fm, vm, rowsm.take(i as int)) == Ok::<Seq<Seq<ValueModel>>, EvalErrorKind>(
                ksm,
            ),
            bucket_keys(buckets@) == dedup_first(ksm),
            forall|g: int|
                0 <= g < buckets@.len() ==> (#[trigger] buckets@[g]).1@.map_values(
                    |x: Record| x.model(),
                ) == bucket_of(fm, vm, rowsm.take(i as int), dedup_first(ksm)[g]),
            forall|g: int, t: int|
                0 <= g < buckets@.len() && 0 <= t < buckets@[g].1@.len() ==> (#[trigger] buckets@[
                    g
                ].1@[t]).wf(),
            forall|g: int|
                0 <= g < buckets@.len() ==> (#[trigger] buckets@[g]).0@.len() == fields@.len(),
        decreases rows@.len() - i,
    {
        let ghost ksm0 = ksm;
        let env = merge(variables.clone(), rows[i].to_variables());
        proof {
            assert(env.model() == stage_env(vm, rowsm[i as int]));
        }
        let key = match group_key_exec(fields, &env) {
            Ok(k) => k,
            Err(e) => {
                proof {
                    assert(rowsm.take(i + 1).drop_last() =~= rowsm.take(i as int));
                    assert(rowsm.take(i + 1).last() == rowsm[i as int]);
                    assert(all_keys(fm, vm, rowsm.take(i + 1)) == Err::<
                        Seq<Seq<ValueModel>>,
                        EvalErrorKind,
                    >(e.kind));
                    lemma_all_keys_err_propagates(fm, vm, rowsm, i as int);
                    assert(rowsm.take(rows@.len() as int) =~= rowsm);
                }
                return Err(e);
            },
        };
        let ghost km = key@.map_values(|v: Value| v.model());
        proof {
            lemma_group_key_len(fm, env.model());
            assert(key@.len() == fields@.len());
            ksm = ksm0.push(km);
            assert(rowsm.take(i + 1).drop_last() =~= rowsm.take(i as int));
            assert(rowsm.take(i + 1).last() == rowsm[i as int]);
            assert(all_keys(fm, vm, rowsm.take(i + 1)) == Ok::<
                Seq<Seq<ValueModel>>,
                EvalErrorKind,
            >(ksm));
            assert(ksm.drop_last() =~= ksm0);
            assert(ksm.last() == km);
        }
        let ghost dks0 = dedup_first(ksm0);
        let mut hit = false;
        let mut idx: usize = 0;
        while idx < buckets.len() && !hit
            invariant
                idx <= buckets@.len(),
                bucket_keys(buckets@) == dks0,
                !hit ==> forall|j: int| 0 <= j < idx ==> dks0[j] != km,
                hit ==> idx < buckets@.len() && dks0[idx as int] == km,
            decreases buckets@.len() - idx, (if hit { 0int } else { 1int }),
        {
            if key_eq(&buckets[idx].0, &key) {
                hit = true;
            } else {
                idx += 1;
            }
        }
        let ghost rowm = rowsm[i as int];
        let ghost predkm = (|r: RecordModel|
            group_key(fm, stage_env(vm, r)) == Ok::<Seq<ValueModel>, EvalErrorKind>(km));
        if hit {
            proof {
                assert(dks0.contains(km));
                assert(dedup_first(ksm) == dks0);
                lemma_dedup_distinct(ksm0);
            }
            let ghost buckets0 = buckets@;
            let mut pair = buckets.remove(idx);
            pair.1.push(rows[i].clone());
            let ghost newpair = pair;
            buckets.insert(idx, pair);
            proof {
                assert(buckets@ =~= buckets0.update(idx as int, newpair));
                assert(newpair.0 == buckets0[idx as int].0);
                assert(bucket_keys(buckets@) =~= dks0);
                assert(newpair.1@.map_values(|x: Record| x.model()) =~= buckets0[
                    idx as int
                ].1@.map_values(|x: Record| x.model()).push(rowm));
                assert forall|g: int|
                    0 <= g < buckets@.len() implies (#[trigger] buckets@[g]).1@.map_values(
                    |x: Record| x.model(),
                ) == bucket_of(fm, vm, rowsm.take(i + 1), dedup_first(ksm)[g]) by {
                    let pred = (|r: RecordModel|
                        group_key(fm, stage_env(vm, r)) == Ok::<Seq<ValueModel>, EvalErrorKind>(
                            dedup_first(ksm)[g],
                        ));
                    lemma_filter_push(rowsm.take(i as int), rowm, pred);
                    assert(rowsm.take(i + 1) =~= rowsm.take(i as int).push(rowm));
                    if g == idx {
                        assert(pred(rowm));
                    } else {
                        assert(dedup_first(ksm)[g] != km);
                        assert(!pred(rowm));
                        assert(buckets@[g] == buckets0[g]);
                    }
                }
            }
        } else {
            proof {
                assert(idx == buckets@.len());
                if dks0.contains(km) {
                    let w = choose|w: int| 0 <= w < dks0.len() && dks0[w] == km;
                    assert(false);
                }
                assert(!dks0.contains(km));
                assert(dedup_first(ksm) == dks0.push(km));
                lemma_dedup_contains(ksm0, km);
                assert(!ksm0.contains(km));
                lemma_all_keys_index(fm, vm, rowsm.take(i as int));
            }
            let mut newrecs: Vec<Record> = Vec::new();
            newrecs.push(rows[i].clone());
            let ghost buckets0 = buckets@;
            buckets.push((key, newrecs));
            proof {
                assert(buckets@ =~= buckets0.push(buckets@.last()));
                assert(bucket_keys(buckets@) =~= dks0.push(km));
                assert forall|t: int| 0 <= t < rowsm.take(i as int).len() implies !predkm(
                    rowsm.take(i as int)[t],
                ) by {
                    if ksm0[t] == km {
                        assert(ksm0.contains(km));
                    }
                }
                lemma_filter_empty(rowsm.take(i as int), predkm);
                lemma_filter_push(rowsm.take(i as int), rowm, predkm);
                assert(rowsm.take(i + 1) =~= rowsm.take(i as int).push(rowm));
                assert(predkm(rowm));
                assert(buckets@.last().1@.map_values(|x: Record| x.model()) =~= seq![rowm]);
                assert(bucket_of(fm, vm, rowsm.take(i + 1), km) =~= seq![rowm]);
                assert forall|g: int|
                    0 <= g < buckets@.len() implies (#[trigger] buckets@[g]).1@.map_values(
                    |x: Record| x.model(),
                ) == bucket_of(fm, vm, rowsm.take(i + 1), dedup_first(ksm)[g]) by {
                    let pred = (|r: RecordModel|
                        group_key(fm, stage_env(vm, r)) == Ok::<Seq<ValueModel>, EvalErrorKind>(
                            dedup_first(ksm)[g],
                        ));
                    lemma_filter_push(rowsm.take(i as int), rowm, pred);
                    assert(rowsm.take(i + 1) =~= rowsm.take(i as int).push(rowm));
                    if g < buckets@.len() - 1 {
                        assert(dks0[g] != km) by {
                            if dks0[g] == km {
                                assert(dks0.contains(km));
                            }
                        }
                        assert(!pred(rowm));
                        assert(buckets@[g] == buckets0[g]);
                    }
                }
            }
        }
        i += 1;
    }
    proof {
        assert(rowsm.take(rows@.len() as int) =~= rowsm);
        assert(all_keys(fm, vm, rowsm) == Ok::<Seq<Seq<ValueModel>>, EvalErrorKind>(ksm));
    }
    let ghost dks = dedup_first(ksm);
    let mut out: Vec<Record> = Vec::new();
    proof {
        assert(dks.take(0) =~= Seq::<Seq<ValueModel>>::empty());
        assert(out@.map_values(|x: Record| x.model()) =~= Seq::<RecordModel>::empty());
        crate::execution::lemma_named_agg_vec_model_len(aggs@);
    }
    let mut g: usize = 0;
    while g < buckets.len()
        invariant
            g <= buckets@.len(),
            rowsm == rows@.map_values(|x: Record| x.model()),
            am == crate::execution::named_agg_vec_model(aggs@),
            am.len() == aggs@.len(),
            all_keys(fm, vm, rowsm) == Ok::<Seq<Seq<ValueModel>>, EvalErrorKind>(ksm),
            dks == dedup_first(ksm),
            dks == bucket_keys(buckets@),
            forall|h: int|
                0 <= h < buckets@.len() ==> (#[trigger] buckets@[h]).1@.map_values(
                    |x: Record| x.model(),
                ) == bucket_of(fm, vm, rowsm, dks[h]),
            forall|h: int, t: int|
                0 <= h < buckets@.len() && 0 <= t < buckets@[h].1@.len() ==> (#[trigger] buckets@[
                    h
                ].1@[t]).wf(),
            forall|h: int|
                0 <= h < buckets@.len() ==> (#[trigger] buckets@[h]).0@.len() == fields@.len(),
            emit_keys(fm, am, vm, rowsm, dks.take(g as int)) == Ok::<
                Seq<RecordModel>,
                EvalErrorKind,
            >(out@.map_values(|x: Record| x.model())),
            forall|i2: int| 0 <= i2 < out@.len() ==> (#[trigger] out@[i2]).wf(),
        decreases buckets@.len() - g,
    {
        let ghost bucketm = buckets@[g as int].1@.map_values(|x: Record| x.model());
        let mut names: Vec<VariableName> = crate::logical::clone_name_vec(fields);
        proof {
            assert(names.deep_view() =~= fm);
            assert(agg_names(am.take(0)) =~= Seq::<Seq<char>>::empty());
            assert(names.deep_view() =~= fm + agg_names(am.take(0)));
        }
        let mut aj: usize = 0;
        while aj < aggs.len()
            invariant
                aj <= aggs@.len(),
                am == crate::execution::named_agg_vec_model(aggs@),
                am.len() == aggs@.len(),
                names.deep_view() == fm + agg_names(am.take(aj as int)),
            decreases aggs@.len() - aj,
        {
            proof {
                crate::execution::lemma_named_agg_vec_model_index(aggs@, aj as int);
            }
            let ghost names0 = names.deep_view();
            match &aggs[aj].name_opt {
                Some(n) => names.push(n.clone()),
                None => names.push(String::new()),
            }
            proof {
                assert(names.deep_view() =~= names0.push(names@.last()@));
                assert(names.deep_view() =~= fm + agg_names(am.take(aj + 1)));
            }
            aj += 1;
        }
        proof {
            assert(am.take(aggs@.len() as int) =~= am);
        }
        let mut resvals: Vec<Value> = Vec::new();
        proof {
            assert(resvals@.map_values(|v: Value| v.model()) =~= Seq::<ValueModel>::empty());
            assert(agg_results(am.take(0), vm, bucketm) == Ok::<Seq<ValueModel>, EvalErrorKind>(
                resvals@.map_values(|v: Value| v.model()),
            ));
        }
        let mut aj2: usize = 0;
        while aj2 < aggs.len()
            invariant
                aj2 <= aggs@.len(),
                am == crate::execution::named_agg_vec_model(aggs@),
                am.len() == aggs@.len(),
                variables.wf(),
                g < buckets@.len(),
                bucketm == buckets@[g as int].1@.map_values(|x: Record| x.model()),
                forall|t: int|
                    0 <= t < buckets@[g as int].1@.len() ==> (#[trigger] buckets@[g as int].1@[
                        t
                    ]).wf(),
                resvals@.len() == aj2,
                agg_results(am.take(aj2 as int), vm, bucketm) == Ok::<
                    Seq<ValueModel>,
                    EvalErrorKind,
                >(resvals@.map_values(|v: Value| v.model())),
            decreases aggs@.len() - aj2,
        {
            proof {
                crate::execution::lemma_named_agg_vec_model_index(aggs@, aj2 as int);
                assert(am.take(aj2 + 1).drop_last() =~= am.take(aj2 as int));
                assert(am.take(aj2 + 1).last() == am[aj2 as int]);
            }
            let ghost res0 = resvals@.map_values(|v: Value| v.model());
            let v = match run_aggregate(&aggs[aj2].aggregate, variables, &buckets[g].1) {
                Ok(v) => v,
                Err(e) => {
                    proof {
                        assert(agg_results(am.take(aj2 + 1), vm, bucketm) == Err::<
                            Seq<ValueModel>,
                            EvalErrorKind,
                        >(e.kind));
                        lemma_agg_results_err_propagates(am, vm, bucketm, aj2 as int);
                        assert(am.take(am.len() as int) =~= am);
                        assert(agg_results(am, vm, bucketm) == Err::<
                            Seq<ValueModel>,
                            EvalErrorKind,
                        >(e.kind));
                        assert(emit_one(fm, am, vm, rowsm, dks[g as int]) == Err::<
                            RecordModel,
                            EvalErrorKind,
                        >(e.kind));
                        assert(dks.take(g + 1).drop_last() =~= dks.take(g as int));
                        assert(dks.take(g + 1).last() == dks[g as int]);
                        assert(emit_keys(fm, am, vm, rowsm, dks.take(g + 1)) == Err::<
                            Seq<RecordModel>,
                            EvalErrorKind,
                        >(e.kind));
                        lemma_emit_keys_err_propagates(fm, am, vm, rowsm, dks, g as int);
                        assert(dks.take(dks.len() as int) =~= dks);
                    }
                    return Err(e);
                },
            };
            resvals.push(v);
            proof {
                assert(resvals@.map_values(|v2: Value| v2.model()) =~= res0.push(
                    resvals@.last().model(),
                ));
            }
            aj2 += 1;
        }
        proof {
            assert(am.take(aggs@.len() as int) =~= am);
        }
        let mut data: Vec<Value> = clone_value_vec(&buckets[g].0);
        let ghost keym = dks[g as int];
        proof {
            assert(data@.map_values(|v: Value| v.model()) =~= keym);
            assert(resvals@.take(0) =~= Seq::<Value>::empty());
            assert(data@.map_values(|v: Value| v.model()) =~= keym + resvals@.take(
                0,
            ).map_values(|v: Value| v.model()));
        }
        let mut t: usize = 0;
        while t < resvals.len()
            invariant
                t <= resvals@.len(),
                data@.map_values(|v: Value| v.model()) == keym + resvals@.take(
                    t as int,
                ).map_values(|v: Value| v.model()),
                data@.len() == keym.len() + t,
            decreases resvals@.len() - t,
        {
            let ghost data0 = data@.map_values(|v: Value| v.model());
            data.push(resvals[t].clone());
            proof {
                assert(data@.map_values(|v: Value| v.model()) =~= data0.push(
                    data@.last().model(),
                ));
                assert(data@.last().model() == resvals@[t as int].model());
                assert(resvals@.take(t + 1) =~= resvals@.take(t as int).push(resvals@[t as int]));
                assert(resvals@.take(t + 1).map_values(|v: Value| v.model()) =~= resvals@.take(
                    t as int,
                ).map_values(|v: Value| v.model()).push(resvals@[t as int].model()));
                assert(data@.map_values(|v: Value| v.model()) =~= keym + resvals@.take(
                    t + 1,
                ).map_values(|v: Value| v.model()));
            }
            t += 1;
        }
        proof {
            assert(resvals@.take(resvals@.len() as int) =~= resvals@);
            assert(keym.len() == buckets@[g as int].0@.len());
            assert(keym.len() == fields@.len());
            assert(names.deep_view().len() == names@.len());
            assert(agg_names(am).len() == am.len());
            assert(names@.len() == fields@.len() + aggs@.len());
            assert(data@.len() == names@.len());
        }
        let record = Record::new(names, data);
        let ghost out0 = out@.map_values(|x: Record| x.model());
        out.push(record);
        proof {
            assert(dks.take(g + 1).drop_last() =~= dks.take(g as int));
            assert(dks.take(g + 1).last() == dks[g as int]);
            assert(out@.map_values(|x: Record| x.model()) =~= out0.push(out@.last().model()));
            assert(out@.last().model().names =~= fm + agg_names(am));
            assert(out@.last().model().values =~= keym + resvals@.map_values(
                |v: Value| v.model(),
            ));
            assert(emit_one(fm, am, vm, rowsm, dks[g as int]) == Ok::<RecordModel, EvalErrorKind>(
                out@.last().model(),
            ));
            assert(emit_keys(fm, am, vm, rowsm, dks.take(g + 1)) == Ok::<
                Seq<RecordModel>,
                EvalErrorKind,
            >(out@.map_values(|x: Record| x.model())));
        }
        g += 1;
    }
    proof {
        assert(dks.take(buckets@.len() as int) =~= dks);
    }
    Ok(out)
}

/// A complete key has one value per grouping field.
proof fn lemma_group_key_len(fields: Seq<Seq<char>>, env: EnvModel)
    ensures
        group_key(fields, env) matches Ok(ks) ==> ks.len() == fields.len(),
    decreases fields.len(),
{
    if fields.len() > 0 {
        lemma_group_key_len(fields.drop_last(), env);
    }
}


/// Consumes the entire child stream on the first pull — aggregation is
/// necessarily blocking — then yields one record per distinct grouping
/// key, in first-seen key order.
pub struct GroupByStream<S: RecordStream> {
    pub fields: Vec<VariableName>,
    pub named_aggregates: Vec<crate::execution::NamedAggregate>,
    pub variables: Variables,
    pub source: S,
    pub buffered: Option<Vec<Record>>,
    pub pos: usize,
}

impl<S: RecordStream> GroupByStream<S> {
    pub fn new(
        fields: Vec<VariableName>,
        named_aggregates: Vec<crate::execution::NamedAggregate>,
        variables: Variables,
        source: S,
    ) -> (r: Self)
        requires
            variables.wf(),
            source.wf(),
        ensures
            r.fields == fields,
            r.named_aggregates == named_aggregates,
            r.variables == variables,
            r.source == source,
            r.wf(),
            r.records() == group_output(
                fields.deep_view(),
                crate::execution::named_agg_vec_model(named_aggregates@),
                variables.model(),
                source.records(),
            ),
    {
        GroupByStream { fields, named_aggregates, variables, source, buffered: None, pos: 0 }
    }
}

impl<S: RecordStream> RecordStream for GroupByStream<S> {
    open spec fn wf(&self) -> bool {
        &&& self.variables.wf()
        &&& self.source.wf()
        &&& match self.buffered {
            Option::Some(buf) => self.pos <= buf@.len() && forall|i: int|
                0 <= i < buf@.len() ==> (#[trigger] buf@[i]).wf(),
            Option::None => true,
        }
    }

    open spec fn records(&self) -> Seq<RecordModel> {
        match self.buffered {
            Option::None => group_output(
                self.fields.deep_view(),
                crate::execution::named_agg_vec_model(self.named_aggregates@),
                self.variables.model(),
                self.source.records(),
            ),
            Option::Some(buf) => buf@.map_values(|x: Record| x.model()).skip(self.pos as int),
        }
    }

    open spec fn may_fail(&self) -> bool {
        match self.buffered {
            Option::Some(_) => false,
            Option::None => self.source.may_fail() || group_records(
                self.fields.deep_view(),
                crate::execution::named_agg_vec_model(self.named_aggregates@),
                self.variables.model(),
                self.source.records(),
            ) is Err,
        }
    }

    fn next(&mut self) -> (r: Result<Option<Record>, EvalError>)
        ensures
            old(self).buffered is Some ==> r is Ok,
            r matches Ok(None) ==> old(self).buffered is Some || group_records(
                old(self).fields.deep_view(),
                crate::execution::named_agg_vec_model(old(self).named_aggregates@),
                old(self).variables.model(),
                old(self).source.records(),
            ) is Ok,
    {
        if self.buffered.is_none() {
            let ghost src0 = self.source.records();
            let mut rows: Vec<Record> = Vec::new();
            let mut done = false;
            proof {
                assert(rows@.map_values(|x: Record| x.model()) + src0 =~= src0);
            }
            while !done
                invariant
                    self.variables.wf(),
                    self.source.wf(),
                    self.fields == old(self).fields,
                    self.named_aggregates == old(self).named_aggregates,
                    self.variables == old(self).variables,
                    self.buffered == old(self).buffered,
                    self.pos == old(self).pos,
                    forall|i: int| 0 <= i < rows@.len() ==> (#[trigger] rows@[i]).wf(),
                    rows@.map_values(|x: Record| x.model()) + self.source.records() == src0,
                    self.source.may_fail() ==> old(self).source.may_fail(),
                    done ==> self.source.records().len() == 0,
                decreases self.source.records().len(), (if done { 0int } else { 1int }),
            {
                let ghost rowsm = rows@.map_values(|x: Record| x.model());
                let pulled = self.source.next()?;
                match pulled {
                    Some(record) => {
                        rows.push(record);
                        proof {
                            assert(rows@.map_values(|x: Record| x.model()) =~= rowsm.push(
                                rows@.last().model(),
                            ));
                            assert(rowsm.push(rows@.last().model()) + self.source.records()
                                =~= src0);
                        }
                    },
                    None => {
                        done = true;
                    },
                }
            }
            proof {
                assert(rows@.map_values(|x: Record| x.model()) + self.source.records()
                    =~= rows@.map_values(|x: Record| x.model()));
                assert(rows@.map_values(|x: Record| x.model()) =~= src0);
            }
            let grouped = match compute_groups(
                &self.fields,
                &self.named_aggregates,
                &self.variables,
                &rows,
            ) {
                Ok(out) => out,
                Err(e) => {
                    proof {
                        assert(group_records(
                            old(self).fields.deep_view(),
                            crate::execution::named_agg_vec_model(old(self).named_aggregates@),
                            old(self).variables.model(),
                            old(self).source.records(),
                        ) is Err);
                        assert(old(self).may_fail());
                    }
                    return Err(e);
                },
            };
            self.buffered = Some(grouped);
            self.pos = 0;
            proof {
                assert(self.records() =~= old(self).records());
            }
        }
        match &self.buffered {
            Some(buf) => {
                if self.pos < buf.len() {
                    let record = buf[self.pos].clone();
                    let ghost bufm = buf@.map_values(|x: Record| x.model());
                    proof {
                        assert(bufm.skip(self.pos as int)[0] == bufm[self.pos as int]);
                        assert(bufm.skip(self.pos as int).skip(1) =~= bufm.skip(self.pos + 1));
                    }
                    self.pos = self.pos + 1;
                    Ok(Some(record))
                } else {
                    proof {
                        assert(buf@.map_values(|x: Record| x.model()).skip(self.pos as int).len()
                            == 0);
                    }
                    Ok(None)
                }
            },
            None => Ok(None),
        }
    }

    fn close(&mut self) {
        self.source.close();
    }
}

/// Grouping law, part one: over any input, a group-by yields exactly one
/// record per distinct grouping key.
pub proof fn lemma_groupby_one_record_per_key(
    fields: Seq<Seq<char>>,
    aggs: Seq<crate::model::NamedAggregateModel>,
    vars: EnvModel,
    src: Seq<RecordModel>,
)
    ensures
        group_records(fields, aggs, vars, src) matches Ok(out) ==> out.len() == dedup_first(
            all_keys(fields, vars, src).unwrap(),
        ).len(),
{
    if all_keys(fields, vars, src) is Ok {
        lemma_emit_keys_len(fields, aggs, vars, src, dedup_first(all_keys(fields, vars, src).unwrap()));
    }
}

proof fn lemma_emit_keys_len(
    fields: Seq<Seq<char>>,
    aggs: Seq<crate::model::NamedAggregateModel>,
    vars: EnvModel,
    src: Seq<RecordModel>,
    keys: Seq<Seq<ValueModel>>,
)
    ensures
        emit_keys(fields, aggs, vars, src, keys) matches Ok(out) ==> out.len() == keys.len(),
    decreases keys.len(),
{
    if keys.len() > 0 {
        lemma_emit_keys_len(fields, aggs, vars, src, keys.drop_last());
    }
}

/// Grouping law, part two: a count over a bucket is exactly the bucket's
/// size, that is, the number of input rows with that grouping key, as long
/// as the count's own operand evaluates on every bucket row (the wildcard
/// always does) and the size fits the machine.
pub proof fn lemma_count_over_bucket(
    n: crate::model::NamedModel,
    vars: EnvModel,
    recs: Seq<RecordModel>,
)
    requires
        recs.len() <= i64::MAX,
        forall|i: int|
            0 <= i < recs.len() ==> #[trigger] named_input(n, vars, recs[i]) is Ok,
    ensures
        agg_result(AggregateModel::Count(n), vars, recs) == Ok::<ValueModel, EvalErrorKind>(
            ValueModel::Int(recs.len() as int),
        ),
{
    lemma_count_fold(n, vars, recs);
}

proof fn lemma_count_fold(n: crate::model::NamedModel, vars: EnvModel, recs: Seq<RecordModel>)
    requires
        recs.len() <= i64::MAX,
        forall|i: int|
            0 <= i < recs.len() ==> #[trigger] named_input(n, vars, recs[i]) is Ok,
    ensures
        agg_fold(AggregateModel::Count(n), vars, recs) == Ok::<AccState, EvalErrorKind>(
            AccState::Count(recs.len() as int),
        ),
    decreases recs.len(),
{
    if recs.len() > 0 {
        assert(forall|i: int|
            0 <= i < recs.len() - 1 ==> recs.drop_last()[i] == recs[i]);
        lemma_count_fold(n, vars, recs.drop_last());
        assert(named_input(n, vars, recs.last()) is Ok);
    }
}

} // verus!
