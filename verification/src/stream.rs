//! The stream engine: a composable pull-iterator protocol over records,
//! with in-memory, map, filter and limit stages. Each stream is modeled by
//! the sequence of records it will yield; `next` yields that sequence's
//! head, and once a stream reports exhaustion it keeps reporting it.

use std::collections::VecDeque;

use vstd::prelude::*;

use crate::common::EvalError;
use crate::common::EvalErrorKind;
use crate::common::Value;
use crate::common::ValueModel;
use crate::common::VariableName;
use crate::common::Variables;
use crate::common::merge;
use crate::execution::Formula;
use crate::execution::Named;
use crate::execution::named_vec_model;
use crate::model::EnvModel;
use crate::model::NamedModel;
use crate::model::eval_expr;
use crate::model::eval_formula;

verus! {

/// The mathematical shape of a record: its field names and values, aligned
/// positionally.
pub ghost struct RecordModel {
    pub names: Seq<Seq<char>>,
    pub values: Seq<ValueModel>,
}

impl RecordModel {
    /// Names and values align.
    pub open spec fn wf(self) -> bool {
        self.names.len() == self.values.len()
    }
}

/// The environment a record's fields denote; on a repeated field name the
/// later field wins, as in `Variables::insert`.
pub open spec fn env_of(names: Seq<Seq<char>>, values: Seq<ValueModel>) -> EnvModel
    decreases names.len(),
{
    if names.len() == 0 || values.len() == 0 {
        Map::empty()
    } else {
        env_of(names.drop_last(), values.drop_last()).insert(names.last(), values.last())
    }
}

/// The merged environment a stream stage evaluates under: its own constant
/// bindings, overridden by the record's fields on a name collision.
pub open spec fn stage_env(vars: EnvModel, rec: RecordModel) -> EnvModel {
    vars.union_prefer_right(env_of(rec.names, rec.values))
}

/// One row flowing through the pipeline: an ordered sequence of fields,
/// names and values aligned positionally.
#[derive(Debug, PartialEq, Eq)]
pub struct Record {
    pub field_names: Vec<VariableName>,
    pub data: Vec<Value>,
}

impl Record {
    /// Names and values align.
    pub open spec fn wf(self) -> bool {
        self.field_names@.len() == self.data@.len()
    }

    pub open spec fn model(self) -> RecordModel {
        RecordModel {
            names: self.field_names.deep_view(),
            values: self.data@.map_values(|v: Value| v.model()),
        }
    }

    pub fn new(field_names: Vec<VariableName>, data: Vec<Value>) -> (r: Self)
        requires
            field_names@.len() == data@.len(),
        ensures
            r.field_names == field_names,
            r.data == data,
            r.wf(),
    {
        Record { field_names, data }
    }

    /// The record's fields as an environment; a repeated name keeps the
    /// later field's value.
    pub fn to_variables(&self) -> (r: Variables)
        requires
            self.wf(),
        ensures
            r.wf(),
            r.model() == env_of(self.model().names, self.model().values),
    {
        let mut variables = Variables::default();
        let mut i: usize = 0;
        while i < self.field_names.len()
            invariant
                i <= self.field_names@.len(),
                variables.wf(),
                variables.model() == env_of(
                    self.model().names.take(i as int),
                    self.model().values.take(i as int),
                ),
            decreases self.field_names@.len() - i,
        {
            variables.insert(self.field_names[i].clone(), self.data[i].clone());
            proof {
                assert(self.model().names.take(i + 1).drop_last() =~= self.model().names.take(
                    i as int,
                ));
                assert(self.model().values.take(i + 1).drop_last() =~= self.model().values.take(
                    i as int,
                ));
            }
            i += 1;
        }
        proof {
            assert(self.model().names.take(self.field_names@.len() as int) =~= self.model().names);
            assert(self.model().values.take(self.field_names@.len() as int)
                =~= self.model().values);
        }
        variables
    }

    /// The record's fields as an ordered list of pairs, in declaration
    /// order.
    pub fn to_tuples(&self) -> (r: Vec<(VariableName, Value)>)
        requires
            self.wf(),
        ensures
            r@.len() == self.field_names@.len(),
            forall|i: int|
                0 <= i < r@.len() ==> (#[trigger] r@[i]).0@ == self.model().names[i] && r@[
                    i
                ].1.model() == self.model().values[i],
    {
        let mut res: Vec<(VariableName, Value)> = Vec::new();
        let mut i: usize = 0;
        while i < self.field_names.len()
            invariant
                i <= self.field_names@.len(),
                res@.len() == i,
                forall|j: int|
                    0 <= j < i ==> (#[trigger] res@[j]).0@ == self.model().names[j] && res@[
                        j
                    ].1.model() == self.model().values[j],
            decreases self.field_names@.len() - i,
        {
            res.push((self.field_names[i].clone(), self.data[i].clone()));
            i += 1;
        }
        res
    }
}

impl Clone for Record {
    fn clone(&self) -> (r: Self)
        ensures
            r.field_names@ == self.field_names@,
            r.data@ == self.data@,
            r.model() == self.model(),
            r.wf() == self.wf(),
    {
        let mut field_names: Vec<VariableName> = Vec::new();
        let mut i: usize = 0;
        while i < self.field_names.len()
            invariant
                i <= self.field_names@.len(),
                field_names@ =~= self.field_names@.take(i as int),
            decreases self.field_names@.len() - i,
        {
            field_names.push(self.field_names[i].clone());
            i += 1;
        }
        let mut data: Vec<Value> = Vec::new();
        let mut j: usize = 0;
        while j < self.data.len()
            invariant
                j <= self.data@.len(),
                data@ =~= self.data@.take(j as int),
            decreases self.data@.len() - j,
        {
            data.push(self.data[j].clone());
            j += 1;
        }
        proof {
            assert(field_names@ =~= self.field_names@);
            assert(data@ =~= self.data@);
        }
        Record { field_names, data }
    }
}

/// The pull-iterator protocol: `records` is the sequence of records the
/// stream will yield, `next` yields its head, and `close` releases any
/// held resources without touching the yield, and is safe to call
/// repeatedly. `may_fail` says whether any pull could fail — a failing
/// source below this stage, or an evaluation in the pipeline that is an
/// error; a stream that cannot fail owes success on every pull, and a
/// successful pull never makes failure newly possible. A failing `next`
/// leaves the stream well formed but otherwise unconstrained: the caller
/// must treat the stream as no longer iterable, close it and stop.
pub trait RecordStream: Sized {
    spec fn wf(&self) -> bool;

    spec fn records(&self) -> Seq<RecordModel>;

    spec fn may_fail(&self) -> bool;

    fn next(&mut self) -> (r: Result<Option<Record>, EvalError>)
        requires
            old(self).wf(),
        ensures
            final(self).wf(),
            !old(self).may_fail() ==> r is Ok,
            r is Ok ==> (final(self).may_fail() ==> old(self).may_fail()),
            (match r {
                Ok(Some(rec)) => old(self).records().len() > 0 && rec.wf() && rec.model() == old(
                    self,
                ).records()[0] && final(self).records() == old(self).records().skip(1),
                Ok(None) => old(self).records().len() == 0 && final(self).records() == old(
                    self,
                ).records(),
                Err(_) => true,
            }),
    ;

    fn close(&mut self)
        requires
            old(self).wf(),
        ensures
            final(self).wf(),
            final(self).records() == old(self).records(),
            final(self).may_fail() == old(self).may_fail(),
    ;
}

/// A stream over records already in memory; the root of test pipelines.
#[derive(Debug)]
pub struct InMemoryStream {
    pub data: VecDeque<Record>,
}

impl InMemoryStream {
    pub fn new(data: VecDeque<Record>) -> (r: InMemoryStream)
        ensures
            r.data == data,
    {
        InMemoryStream { data }
    }
}

impl RecordStream for InMemoryStream {
    open spec fn wf(&self) -> bool {
        forall|i: int| 0 <= i < self.data@.len() ==> (#[trigger] self.data@[i]).wf()
    }

    open spec fn records(&self) -> Seq<RecordModel> {
        self.data@.map_values(|r: Record| r.model())
    }

    open spec fn may_fail(&self) -> bool {
        false
    }

    fn next(&mut self) -> (r: Result<Option<Record>, EvalError>)
        ensures
            r is Ok,
    {
        match self.data.pop_front() {
            Some(record) => {
                proof {
                    assert(self.data@ =~= old(self).data@.skip(1));
                    assert(self.data@.map_values(|r: Record| r.model()) =~= old(
                        self,
                    ).data@.map_values(|r: Record| r.model()).skip(1));
                }
                Ok(Some(record))
            },
            None => Ok(None),
        }
    }

    fn close(&mut self) {
    }
}

// ---------------------------------------------------------------------------
// Map stream.
// ---------------------------------------------------------------------------
/// The field name an alias denotes; an expression without an alias yields
/// the empty field name.
pub open spec fn alias_name(alias: Option<Seq<char>>) -> Seq<char> {
    match alias {
        Option::Some(n) => n,
        Option::None => Seq::empty(),
    }
}

/// The fields a projection list produces from one record under an
/// environment, in list order; the wildcard contributes every field of the
/// record, in the record's own order.
pub open spec fn project_items(
    named: Seq<NamedModel>,
    env: EnvModel,
    rec: RecordModel,
) -> Result<(Seq<Seq<char>>, Seq<ValueModel>), EvalErrorKind>
    decreases named.len(),
{
    if named.len() == 0 {
        Ok((Seq::empty(), Seq::empty()))
    } else {
        match project_items(named.drop_last(), env, rec) {
            Err(k) => Err(k),
            Ok((ns, vs)) => match named.last() {
                NamedModel::Expression(e, alias) => match eval_expr(e, env) {
                    Ok(v) => Ok((ns.push(alias_name(alias)), vs.push(v))),
                    Err(k) => Err(k),
                },
                NamedModel::Star => Ok((ns + rec.names, vs + rec.values)),
            },
        }
    }
}

/// The record a projection list produces from one record.
pub open spec fn project_rec(
    named: Seq<NamedModel>,
    vars: EnvModel,
    rec: RecordModel,
) -> Result<RecordModel, EvalErrorKind> {
    match project_items(named, stage_env(vars, rec), rec) {
        Ok((ns, vs)) => Ok(RecordModel { names: ns, values: vs }),
        Err(k) => Err(k),
    }
}

/// The records a map stage yields: each source record projected, stopping
/// at the first failure.
pub open spec fn map_records(
    named: Seq<NamedModel>,
    vars: EnvModel,
    src: Seq<RecordModel>,
) -> Seq<RecordModel>
    decreases src.len(),
{
    if src.len() == 0 {
        Seq::empty()
    } else {
        match project_rec(named, vars, src[0]) {
            Ok(r) => seq![r] + map_records(named, vars, src.drop_first()),
            Err(_) => Seq::empty(),
        }
    }
}

/// On each pull, takes one record from its child and evaluates the
/// projection list against the merged environment, where the record's own
/// fields override the stage's constant bindings.
pub struct MapStream<S: RecordStream> {
    pub named_list: Vec<Named>,
    pub variables: Variables,
    pub source: S,
}

impl<S: RecordStream> MapStream<S> {
    pub fn new(named_list: Vec<Named>, variables: Variables, source: S) -> (r: Self)
        requires
            variables.wf(),
            source.wf(),
        ensures
            r.named_list == named_list,
            r.variables == variables,
            r.source == source,
            r.wf(),
            r.records() == map_records(
                named_vec_model(named_list@),
                variables.model(),
                source.records(),
            ),
    {
        MapStream { named_list, variables, source }
    }
}

impl<S: RecordStream> RecordStream for MapStream<S> {
    open spec fn wf(&self) -> bool {
        self.variables.wf() && self.source.wf()
    }

    open spec fn records(&self) -> Seq<RecordModel> {
        map_records(named_vec_model(self.named_list@), self.variables.model(), self.source.records())
    }

    open spec fn may_fail(&self) -> bool {
        self.source.may_fail() || exists|i: int|
            0 <= i < self.source.records().len() && #[trigger] project_rec(
                named_vec_model(self.named_list@),
                self.variables.model(),
                self.source.records()[i],
            ) is Err
    }

    fn next(&mut self) -> (r: Result<Option<Record>, EvalError>)
        ensures
            r matches Ok(None) ==> old(self).source.records().len() == 0,
            r matches Ok(Some(_)) ==> final(self).source.records() == old(
                self,
            ).source.records().skip(1),
    {
        let ghost named_model = named_vec_model(self.named_list@);
        let ghost vars_model = self.variables.model();
        let ghost src0 = self.source.records();
        let pulled = self.source.next()?;
        match pulled {
            Some(record) => {
                let ghost recm = record.model();
                let variables = merge(self.variables.clone(), record.to_variables());
                proof {
                    assert(variables.model() == stage_env(vars_model, recm));
                }
                let mut field_names: Vec<VariableName> = Vec::new();
                let mut data: Vec<Value> = Vec::new();
                proof {
                    crate::execution::lemma_named_vec_model_len(self.named_list@);
                    assert(named_model.take(0) =~= Seq::<NamedModel>::empty());
                    assert(field_names.deep_view() =~= Seq::<Seq<char>>::empty());
                    assert(data@.map_values(|v: Value| v.model()) =~= Seq::<ValueModel>::empty());
                }
                let mut i: usize = 0;
                while i < self.named_list.len()
                    invariant
                        i <= self.named_list@.len(),
                        named_model == named_vec_model(self.named_list@),
                        named_model.len() == self.named_list@.len(),
                        variables.wf(),
                        variables.model() == stage_env(vars_model, recm),
                        recm.wf(),
                        field_names@.len() == data@.len(),
                        project_items(
                            named_model.take(i as int),
                            stage_env(vars_model, recm),
                            recm,
                        ) == Ok::<_, EvalErrorKind>((
                            field_names.deep_view(),
                            data@.map_values(|v: Value| v.model()),
                        )),
                    decreases self.named_list@.len() - i,
                {
                    proof {
                        crate::execution::lemma_named_vec_model_index(self.named_list@, i as int);
                        assert(named_model.take(i + 1).drop_last() =~= named_model.take(i as int));
                        assert(named_model.take(i + 1).last() == named_model[i as int]);
                    }
                    let ghost names_before = field_names.deep_view();
                    let ghost values_before = data@.map_values(|v: Value| v.model());
                    match &self.named_list[i] {
                        Named::Expression(expr, name) => {
                            let v = match expr.expression_value(&variables) {
                                Ok(v) => v,
                                Err(e) => {
                                    proof {
                                        assert(project_items(
                                            named_model.take(i + 1),
                                            stage_env(vars_model, recm),
                                            recm,
                                        ) is Err);
                                        lemma_project_items_err_propagates(
                                            named_model,
                                            stage_env(vars_model, recm),
                                            recm,
                                            i as int,
                                        );
                                        assert(project_rec(named_model, vars_model, recm) is Err);
                                        assert(old(self).source.records()[0] == recm);
                                        assert(old(self).may_fail());
                                    }
                                    return Err(e);
                                },
                            };
                            match name {
                                Some(n) => field_names.push(n.clone()),
                                None => field_names.push(String::new()),
                            }
                            data.push(v);
                            proof {
                                assert(field_names.deep_view() =~= names_before.push(
                                    field_names@.last()@,
                                ));
                                assert(data@.map_values(|v: Value| v.model())
                                    =~= values_before.push(data@.last().model()));
                            }
                        },
                        Named::Star => {
                            let tuples = record.to_tuples();
                            let mut k: usize = 0;
                            proof {
                                assert(field_names.deep_view() =~= names_before + recm.names.take(
                                    0,
                                ));
                                assert(data@.map_values(|v: Value| v.model()) =~= values_before
                                    + recm.values.take(0));
                            }
                            while k < tuples.len()
                                invariant
                                    k <= tuples@.len(),
                                    tuples@.len() == recm.names.len(),
                                    recm.wf(),
                                    forall|t: int|
                                        0 <= t < tuples@.len() ==> (#[trigger] tuples@[t]).0@
                                            == recm.names[t] && tuples@[t].1.model()
                                            == recm.values[t],
                                    field_names@.len() == data@.len(),
                                    field_names.deep_view() == names_before + recm.names.take(
                                        k as int,
                                    ),
                                    data@.map_values(|v: Value| v.model()) == values_before
                                        + recm.values.take(k as int),
                                decreases tuples@.len() - k,
                            {
                                let (fname, fvalue) = (tuples[k].0.clone(), tuples[k].1.clone());
                                proof {
                                    assert(fname@ == recm.names[k as int]);
                                    assert(fvalue.model() == recm.values[k as int]);
                                }
                                let ghost fnames_before_push = field_names.deep_view();
                                let ghost values_before_push = data@.map_values(|v: Value| v.model());
                                field_names.push(fname);
                                data.push(fvalue);
                                proof {
                                    assert(field_names.deep_view() =~= fnames_before_push.push(
                                        recm.names[k as int],
                                    ));
                                    assert(data@.map_values(|v: Value| v.model())
                                        =~= values_before_push.push(recm.values[k as int]));
                                    assert(field_names.deep_view() =~= names_before
                                        + recm.names.take(k + 1));
                                    assert(data@.map_values(|v: Value| v.model()) =~= values_before
                                        + recm.values.take(k + 1));
                                }
                                k += 1;
                            }
                            proof {
                                assert(recm.names.take(recm.names.len() as int) =~= recm.names);
                                assert(recm.values.take(recm.values.len() as int) =~= recm.values);
                            }
                        },
                    }
                    i += 1;
                }
                proof {
                    assert(named_model.take(self.named_list@.len() as int) =~= named_model);
                    assert(src0[0] == recm);
                    assert(seq![RecordModel {
                        names: field_names.deep_view(),
                        values: data@.map_values(|v: Value| v.model()),
                    }] + map_records(named_model, vars_model, src0.drop_first())
                        =~= map_records(named_model, vars_model, src0));
                    assert(map_records(named_model, vars_model, src0).skip(1) =~= map_records(
                        named_model,
                        vars_model,
                        src0.drop_first(),
                    ));
                    assert(src0.drop_first() =~= src0.skip(1));
                    assert forall|i2: int|
                        0 <= i2 < self.source.records().len() && #[trigger] project_rec(
                            named_model,
                            vars_model,
                            self.source.records()[i2],
                        ) is Err implies project_rec(named_model, vars_model, src0[i2 + 1]) is Err by {
                        assert(self.source.records()[i2] == src0[i2 + 1]);
                    }
                }
                let out = Record::new(field_names, data);
                Ok(Some(out))
            },
            None => Ok(None),
        }
    }

    fn close(&mut self) {
        self.source.close();
    }
}

/// A projection failure at any prefix of the list settles the projection.
proof fn lemma_project_items_err_propagates(
    named: Seq<NamedModel>,
    env: EnvModel,
    rec: RecordModel,
    j: int,
)
    requires
        0 <= j < named.len(),
        project_items(named.take(j + 1), env, rec) is Err,
    ensures
        project_items(named, env, rec) == project_items(named.take(j + 1), env, rec),
    decreases named.len() - j,
{
    if j + 1 == named.len() {
        assert(named.take(j + 1) =~= named);
    } else {
        assert(named.take(j + 2).drop_last() =~= named.take(j + 1));
        lemma_project_items_err_propagates(named, env, rec, j + 1);
    }
}

// ---------------------------------------------------------------------------
// Filter stream.
// ---------------------------------------------------------------------------
/// The records a filter stage yields: exactly the order-preserving
/// subsequence of source records whose formula evaluates true under the
/// merged environment, stopping at the first evaluation failure.
pub open spec fn filter_records(f: crate::model::FormulaModel, vars: EnvModel, src: Seq<RecordModel>) -> Seq<
    RecordModel,
>
    decreases src.len(),
{
    if src.len() == 0 {
        Seq::empty()
    } else {
        match eval_formula(f, stage_env(vars, src[0])) {
            Ok(true) => seq![src[0]] + filter_records(f, vars, src.drop_first()),
            Ok(false) => filter_records(f, vars, src.drop_first()),
            Err(_) => Seq::empty(),
        }
    }
}

/// On each pull, keeps taking records from its child until one satisfies
/// the formula: a skip-until-match loop, not a one-shot test.
pub struct FilterStream<S: RecordStream> {
    pub formula: Formula,
    pub variables: Variables,
    pub source: S,
}

impl<S: RecordStream> FilterStream<S> {
    pub fn new(formula: Formula, variables: Variables, source: S) -> (r: Self)
        requires
            variables.wf(),
            source.wf(),
        ensures
            r.formula == formula,
            r.variables == variables,
            r.source == source,
            r.wf(),
            r.records() == filter_records(formula.model(), variables.model(), source.records()),
    {
        FilterStream { formula, variables, source }
    }
}

impl<S: RecordStream> RecordStream for FilterStream<S> {
    open spec fn wf(&self) -> bool {
        self.variables.wf() && self.source.wf()
    }

    open spec fn records(&self) -> Seq<RecordModel> {
        filter_records(self.formula.model(), self.variables.model(), self.source.records())
    }

    open spec fn may_fail(&self) -> bool {
        self.source.may_fail() || exists|i: int|
            0 <= i < self.source.records().len() && #[trigger] eval_formula(
                self.formula.model(),
                stage_env(self.variables.model(), self.source.records()[i]),
            ) is Err
    }

    fn next(&mut self) -> (r: Result<Option<Record>, EvalError>)
        ensures
            r matches Ok(None) ==> forall|i: int|
                0 <= i < old(self).source.records().len() ==> eval_formula(
                    old(self).formula.model(),
                    stage_env(
                        old(self).variables.model(),
                        old(self).source.records()[i],
                    ),
                ) == Ok::<bool, EvalErrorKind>(false),
            r matches Ok(Some(_)) ==> exists|k: int|
                #![trigger old(self).source.records().skip(k + 1)]
                0 <= k < old(self).source.records().len() && final(self).source.records() == old(
                    self,
                ).source.records().skip(k + 1) && eval_formula(
                    old(self).formula.model(),
                    stage_env(old(self).variables.model(), old(self).source.records()[k]),
                ) == Ok::<bool, EvalErrorKind>(true) && (forall|i: int|
                    0 <= i < k ==> #[trigger] eval_formula(
                        old(self).formula.model(),
                        stage_env(old(self).variables.model(), old(self).source.records()[i]),
                    ) == Ok::<bool, EvalErrorKind>(false)),
    {
        let ghost fm = self.formula.model();
        let ghost vars_model = self.variables.model();
        let ghost src_start = self.source.records();
        let ghost mut consumed: Seq<RecordModel> = Seq::empty();
        proof {
            assert(consumed + self.source.records() =~= src_start);
        }
        loop
            invariant
                self.wf(),
                self.formula == old(self).formula,
                self.variables == old(self).variables,
                filter_records(fm, vars_model, self.source.records()) == old(self).records(),
                consumed + self.source.records() == src_start,
                self.source.may_fail() ==> old(self).source.may_fail(),
                forall|i: int|
                    0 <= i < consumed.len() ==> eval_formula(
                        fm,
                        stage_env(vars_model, consumed[i]),
                    ) == Ok::<bool, EvalErrorKind>(false),
            decreases self.source.records().len(),
        {
            let ghost src0 = self.source.records();
            let pulled = self.source.next()?;
            match pulled {
                Some(record) => {
                    let variables = merge(self.variables.clone(), record.to_variables());
                    proof {
                        assert(src0[0] == (consumed + src0)[consumed.len() as int]);
                        assert(variables.model() == stage_env(vars_model, src0[0]));
                    }
                    let predicate = match self.formula.evaluate(&variables) {
                        Ok(b) => b,
                        Err(e) => {
                            proof {
                                assert(src_start[consumed.len() as int] == src0[0]);
                                assert(eval_formula(
                                    fm,
                                    stage_env(vars_model, src_start[consumed.len() as int]),
                                ) is Err);
                                assert(old(self).may_fail());
                            }
                            return Err(e);
                        },
                    };
                    proof {
                        assert(src0.drop_first() =~= src0.skip(1));
                        if predicate {
                            assert(filter_records(fm, vars_model, src0) == seq![src0[0]]
                                + filter_records(fm, vars_model, src0.drop_first()));
                            assert(filter_records(fm, vars_model, src0).skip(1) =~= filter_records(
                                fm,
                                vars_model,
                                src0.drop_first(),
                            ));
                        }
                    }
                    if predicate {
                        proof {
                            let kw = consumed.len() as int;
                            assert(src_start.skip(kw + 1) =~= src0.skip(1));
                            assert(final(self).source.records() == src_start.skip(kw + 1));
                            assert(eval_formula(
                                fm,
                                stage_env(vars_model, src_start[kw]),
                            ) == Ok::<bool, EvalErrorKind>(true));
                            assert(forall|i: int|
                                0 <= i < kw ==> src_start[i] == consumed[i]);
                            assert forall|i2: int|
                                0 <= i2 < self.source.records().len() && #[trigger] eval_formula(
                                    fm,
                                    stage_env(vars_model, self.source.records()[i2]),
                                ) is Err implies eval_formula(
                                fm,
                                stage_env(vars_model, src_start[i2 + kw + 1]),
                            ) is Err by {
                                assert(self.source.records()[i2] == src_start[i2 + kw + 1]);
                            }
                        }
                        return Ok(Some(record));
                    }
                    proof {
                        consumed = consumed.push(src0[0]);
                        assert(consumed + self.source.records() =~= src_start);
                    }
                },
                None => {
                    proof {
                        assert(consumed =~= src_start);
                    }
                    return Ok(None);
                },
            }
        }
    }

    fn close(&mut self) {
        self.source.close();
    }
}

// ---------------------------------------------------------------------------
// Limit stream.
// ---------------------------------------------------------------------------
/// The records a limit stage yields: the first `n` of its child's records,
/// or all of them if the child has fewer.
pub open spec fn limit_records(n: nat, src: Seq<RecordModel>) -> Seq<RecordModel> {
    if n <= src.len() {
        src.take(n as int)
    } else {
        src
    }
}

/// Passes through up to `n` records from its child, then reports
/// exhaustion regardless of whether the child has more; a limit of zero
/// yields no records.
pub struct LimitStream<S: RecordStream> {
    pub remaining: u32,
    pub source: S,
}

impl<S: RecordStream> LimitStream<S> {
    pub fn new(row_count: u32, source: S) -> (r: Self)
        requires
            source.wf(),
        ensures
            r.remaining == row_count,
            r.source == source,
            r.wf(),
            r.records() == limit_records(row_count as nat, source.records()),
    {
        LimitStream { remaining: row_count, source }
    }
}

impl<S: RecordStream> RecordStream for LimitStream<S> {
    open spec fn wf(&self) -> bool {
        self.source.wf()
    }

    open spec fn records(&self) -> Seq<RecordModel> {
        limit_records(self.remaining as nat, self.source.records())
    }

    open spec fn may_fail(&self) -> bool {
        self.remaining > 0 && self.source.may_fail()
    }

    fn next(&mut self) -> (r: Result<Option<Record>, EvalError>)
        ensures
            old(self).remaining == 0 ==> r matches Ok(None),
            r matches Ok(None) ==> old(self).remaining == 0 || old(self).source.records().len()
                == 0,
            r matches Ok(Some(_)) ==> final(self).source.records() == old(
                self,
            ).source.records().skip(1) && final(self).remaining == old(self).remaining - 1,
    {
        if self.remaining == 0 {
            return Ok(None);
        }
        let ghost src0 = self.source.records();
        let pulled = self.source.next()?;
        match pulled {
            Some(record) => {
                self.remaining = self.remaining - 1;
                proof {
                    assert(src0.skip(1) =~= src0.drop_first());
                    if self.remaining as nat <= src0.skip(1).len() {
                        assert(limit_records(self.remaining as nat, src0.skip(1)) =~= limit_records(
                            old(self).remaining as nat,
                            src0,
                        ).skip(1));
                    } else {
                        assert(limit_records(self.remaining as nat, src0.skip(1)) =~= limit_records(
                            old(self).remaining as nat,
                            src0,
                        ).skip(1));
                    }
                }
                Ok(Some(record))
            },
            None => Ok(None),
        }
    }

    fn close(&mut self) {
        self.source.close();
    }
}


/// Filter law: over records on which the predicate evaluates, the filter
/// stage's output is exactly the order-preserving subsequence of records
/// whose formula evaluates true.
pub proof fn lemma_filter_exact_subsequence(
    f: crate::model::FormulaModel,
    vars: EnvModel,
    src: Seq<RecordModel>,
)
    requires
        forall|i: int|
            0 <= i < src.len() ==> #[trigger] eval_formula(f, stage_env(vars, src[i])) is Ok,
    ensures
        filter_records(f, vars, src) == src.filter(
            |r: RecordModel| eval_formula(f, stage_env(vars, r)) == Ok::<bool, EvalErrorKind>(true),
        ),
    decreases src.len(),
{
    reveal(Seq::filter);
    let pred = (|r: RecordModel|
        eval_formula(f, stage_env(vars, r)) == Ok::<bool, EvalErrorKind>(true));
    if src.len() == 0 {
        assert(src.filter(pred) =~= Seq::<RecordModel>::empty());
    } else {
        let head = seq![src[0]];
        let rest = src.drop_first();
        assert(forall|i: int| 0 <= i < rest.len() ==> rest[i] == src[i + 1]);
        lemma_filter_exact_subsequence(f, vars, rest);
        Seq::filter_distributes_over_add(head, rest, pred);
        assert(head + rest =~= src);
        assert(head.drop_last() =~= Seq::<RecordModel>::empty());
        assert(head.last() == src[0]);
        assert(Seq::<RecordModel>::empty().filter(pred) =~= Seq::<RecordModel>::empty());
        if pred(src[0]) {
            assert(head.filter(pred) =~= seq![src[0]]);
            assert(filter_records(f, vars, src) =~= src.filter(pred));
        } else {
            assert(head.filter(pred) =~= Seq::<RecordModel>::empty());
            assert(filter_records(f, vars, src) =~= src.filter(pred));
        }
    }
}

/// Projection law: a projection list holding only the wildcard passes each
/// record through with its field order and values unchanged.
pub proof fn lemma_star_projection_identity(vars: EnvModel, rec: RecordModel)
    requires
        rec.wf(),
    ensures
        project_rec(seq![NamedModel::Star], vars, rec) == Ok::<RecordModel, EvalErrorKind>(rec),
{
    reveal_with_fuel(project_items, 2);
    assert(seq![NamedModel::Star].drop_last() =~= Seq::<NamedModel>::empty());
    assert(seq![NamedModel::Star].last() == NamedModel::Star);
    assert(Seq::<Seq<char>>::empty() + rec.names =~= rec.names);
    assert(Seq::<ValueModel>::empty() + rec.values =~= rec.values);
}

/// Limit law, part one: a limit of zero yields no records.
pub proof fn lemma_limit_zero(src: Seq<RecordModel>)
    ensures
        limit_records(0, src) == Seq::<RecordModel>::empty(),
{
    assert(src.take(0) =~= Seq::<RecordModel>::empty());
}

/// Limit law, part two: a limit of at least the child's length yields
/// every record.
pub proof fn lemma_limit_all(n: nat, src: Seq<RecordModel>)
    requires
        n >= src.len(),
    ensures
        limit_records(n, src) == src,
{
    if n <= src.len() {
        assert(src.take(n as int) =~= src);
    }
}

} // verus!
