//! The order-by stream: buffers its entire child output, sorts it by the
//! given field list with leftmost-field-major precedence and per-field
//! directions, then yields the buffered records one by one. The sort is a
//! stable insertion sort: a record is inserted after every buffered record
//! that does not strictly follow it, so equal-key rows keep their original
//! relative order.

use vstd::prelude::*;

use crate::common::EvalError;
use crate::common::EvalErrorKind;
use crate::common::Value;
use crate::common::ValueModel;
use crate::common::VariableName;
use crate::execution::Ordering;
use crate::execution::str_lt;
use crate::model::OrderingModel;
use crate::model::lookup_env;
use crate::model::seq_char_lt;
use crate::stream::Record;
use crate::stream::RecordModel;
use crate::stream::RecordStream;
use crate::stream::env_of;

verus! {

/// The sort key of a record: the values of the given fields, looked up in
/// the record's own environment; a missing field is an error.
pub open spec fn rec_key(fields: Seq<Seq<char>>, rec: RecordModel) -> Result<
    Seq<ValueModel>,
    EvalErrorKind,
>
    decreases fields.len(),
{
    if fields.len() == 0 {
        Ok(Seq::empty())
    } else {
        match rec_key(fields.drop_last(), rec) {
            Err(k) => Err(k),
            Ok(vs) => match lookup_env(env_of(rec.names, rec.values), fields.last()) {
                Ok(v) => Ok(vs.push(v)),
                Err(k) => Err(k),
            },
        }
    }
}

/// Whether `a` strictly precedes `b` within one kind; comparing across
/// kinds, or ordering booleans, is a type error.
pub open spec fn val_lt(a: ValueModel, b: ValueModel) -> Result<bool, EvalErrorKind> {
    match (a, b) {
        (ValueModel::Int(x), ValueModel::Int(y)) => Ok(x < y),
        (ValueModel::Str(x), ValueModel::Str(y)) => Ok(seq_char_lt(x, y)),
        _ => Err(EvalErrorKind::TypeMismatch),
    }
}

/// Whether key `a` strictly precedes key `b`, leftmost field major, each
/// position in its own direction; positions beyond the shorter of the
/// keys or the direction list do not order.
pub open spec fn key_lt(ords: Seq<OrderingModel>, a: Seq<ValueModel>, b: Seq<ValueModel>) -> Result<
    bool,
    EvalErrorKind,
>
    decreases a.len(),
{
    if a.len() == 0 || b.len() == 0 || ords.len() == 0 {
        Ok(false)
    } else {
        let x = if ords[0] is Asc {
            a[0]
        } else {
            b[0]
        };
        let y = if ords[0] is Asc {
            b[0]
        } else {
            a[0]
        };
        match val_lt(x, y) {
            Err(k) => Err(k),
            Ok(true) => Ok(true),
            Ok(false) => match val_lt(y, x) {
                Err(k) => Err(k),
                Ok(true) => Ok(false),
                Ok(false) => key_lt(ords.drop_first(), a.drop_first(), b.drop_first()),
            },
        }
    }
}

/// Whether record `a` strictly precedes record `b` under the given fields
/// and directions.
pub open spec fn rec_lt(
    fields: Seq<Seq<char>>,
    ords: Seq<OrderingModel>,
    a: RecordModel,
    b: RecordModel,
) -> Result<bool, EvalErrorKind> {
    match rec_key(fields, a) {
        Err(k) => Err(k),
        Ok(ka) => match rec_key(fields, b) {
            Err(k) => Err(k),
            Ok(kb) => key_lt(ords, ka, kb),
        },
    }
}

/// Inserts `x` into the sorted sequence `s`, after every element that does
/// not strictly follow it: the stable insertion position.
pub open spec fn insert_sorted(
    fields: Seq<Seq<char>>,
    ords: Seq<OrderingModel>,
    x: RecordModel,
    s: Seq<RecordModel>,
) -> Seq<RecordModel>
    decreases s.len(),
{
    if s.len() == 0 {
        seq![x]
    } else {
        match rec_lt(fields, ords, x, s.last()) {
            Ok(true) => insert_sorted(fields, ords, x, s.drop_last()).push(s.last()),
            _ => s.push(x),
        }
    }
}

/// The stable insertion sort of `s`: each record inserted in turn, in
/// arrival order.
pub open spec fn sort_records(
    fields: Seq<Seq<char>>,
    ords: Seq<OrderingModel>,
    s: Seq<RecordModel>,
) -> Seq<RecordModel>
    decreases s.len(),
{
    if s.len() == 0 {
        Seq::empty()
    } else {
        insert_sorted(fields, ords, s.last(), sort_records(fields, ords, s.drop_last()))
    }
}

/// A key-extraction failure at any prefix settles the whole key.
proof fn lemma_rec_key_err_propagates(fields: Seq<Seq<char>>, rec: RecordModel, i: int)
    requires
        0 <= i < fields.len(),
        rec_key(fields.take(i + 1), rec) is Err,
    ensures
        rec_key(fields, rec) == rec_key(fields.take(i + 1), rec),
    decreases fields.len() - i,
{
    if i + 1 == fields.len() {
        assert(fields.take(i + 1) =~= fields);
    } else {
        assert(fields.take(i + 2).drop_last() =~= fields.take(i + 1));
        lemma_rec_key_err_propagates(fields, rec, i + 1);
    }
}

/// Extracts the sort key of a record.
fn rec_key_exec(fields: &Vec<VariableName>, rec: &Record) -> (r: Result<Vec<Value>, EvalError>)
    requires
        rec.wf(),
    ensures
        match r {
            Ok(key) => rec_key(fields.deep_view(), rec.model()) == Ok::<_, EvalErrorKind>(
                key@.map_values(|v: Value| v.model()),
            ),
            Err(e) => rec_key(fields.deep_view(), rec.model()) == Err::<Seq<ValueModel>, _>(
                e.kind,
            ),
        },
{
    let variables = rec.to_variables();
    let mut key: Vec<Value> = Vec::new();
    proof {
        assert(fields.deep_view().take(0) =~= Seq::<Seq<char>>::empty());
        assert(key@.map_values(|v: Value| v.model()) =~= Seq::<ValueModel>::empty());
    }
    let mut i: usize = 0;
    while i < fields.len()
        invariant
            i <= fields@.len(),
            variables.wf(),
            variables.model() == env_of(rec.model().names, rec.model().values),
            rec_key(fields.deep_view().take(i as int), rec.model()) == Ok::<_, EvalErrorKind>(
                key@.map_values(|v: Value| v.model()),
            ),
        decreases fields@.len() - i,
    {
        proof {
            assert(fields.deep_view().take(i + 1).drop_last() =~= fields.deep_view().take(
                i as int,
            ));
            assert(fields.deep_view().take(i + 1).last() == fields.deep_view()[i as int]);
        }
        let ghost key_before = key@.map_values(|v: Value| v.model());
        match variables.get(&fields[i]) {
            Some(v) => {
                key.push(v.clone());
                proof {
                    assert(key@.map_values(|v: Value| v.model()) =~= key_before.push(
                        key@.last().model(),
                    ));
                }
            },
            None => {
                proof {
                    assert(fields.deep_view().take(i + 1).drop_last() =~= fields.deep_view().take(
                        i as int,
                    ));
                    assert(rec_key(fields.deep_view().take(i + 1), rec.model()) == Err::<
                        Seq<ValueModel>,
                        _,
                    >(EvalErrorKind::UndefinedVariable));
                    lemma_rec_key_err_propagates(fields.deep_view(), rec.model(), i as int);
                }
                return Err(
                    EvalError::new(EvalErrorKind::UndefinedVariable, "sort field not present"),
                );
            },
        }
        i += 1;
    }
    proof {
        assert(fields.deep_view().take(fields@.len() as int) =~= fields.deep_view());
    }
    Ok(key)
}

/// Whether `a` strictly precedes `b` within one kind.
pub fn val_lt_exec(a: &Value, b: &Value) -> (r: Result<bool, EvalError>)
    ensures
        match r {
            Ok(x) => val_lt(a.model(), b.model()) == Ok::<bool, EvalErrorKind>(x),
            Err(e) => val_lt(a.model(), b.model()) == Err::<bool, EvalErrorKind>(e.kind),
        },
{
    match (a, b) {
        (Value::Int(x), Value::Int(y)) => Ok(*x < *y),
        (Value::String(x), Value::String(y)) => Ok(str_lt(x, y)),
        _ => Err(EvalError::new(EvalErrorKind::TypeMismatch, "values cannot be ordered")),
    }
}

/// Whether key `a` strictly precedes key `b`.
fn key_lt_exec(orderings: &Vec<Ordering>, a: &Vec<Value>, b: &Vec<Value>) -> (r: Result<
    bool,
    EvalError,
>)
    ensures
        ({
            let spec_r = key_lt(
                orderings@.map_values(|o: Ordering| o.model()),
                a@.map_values(|v: Value| v.model()),
                b@.map_values(|v: Value| v.model()),
            );
            match r {
                Ok(x) => spec_r == Ok::<bool, EvalErrorKind>(x),
                Err(e) => spec_r == Err::<bool, EvalErrorKind>(e.kind),
            }
        }),
{
    let ghost om = orderings@.map_values(|o: Ordering| o.model());
    let ghost am = a@.map_values(|v: Value| v.model());
    let ghost bm = b@.map_values(|v: Value| v.model());
    let mut i: usize = 0;
    proof {
        assert(om.skip(0) =~= om);
        assert(am.skip(0) =~= am);
        assert(bm.skip(0) =~= bm);
    }
    while i < orderings.len() && i < a.len() && i < b.len()
        invariant
            i <= orderings@.len(),
            i <= a@.len(),
            i <= b@.len(),
            key_lt(om, am, bm) == key_lt(
                om.skip(i as int),
                am.skip(i as int),
                bm.skip(i as int),
            ),
        decreases orderings@.len() - i,
    {
        let asc = match orderings[i] {
            Ordering::Asc => true,
            Ordering::Desc => false,
        };
        let (x, y) = if asc {
            (&a[i], &b[i])
        } else {
            (&b[i], &a[i])
        };
        let first = val_lt_exec(x, y)?;
        if first {
            return Ok(true);
        }
        let second = val_lt_exec(y, x)?;
        if second {
            return Ok(false);
        }
        proof {
            assert(om.skip(i as int).drop_first() =~= om.skip(i + 1));
            assert(am.skip(i as int).drop_first() =~= am.skip(i + 1));
            assert(bm.skip(i as int).drop_first() =~= bm.skip(i + 1));
        }
        i += 1;
    }
    Ok(false)
}

/// Whether record `a` strictly precedes record `b`.
fn rec_lt_exec(
    fields: &Vec<VariableName>,
    orderings: &Vec<Ordering>,
    a: &Record,
    b: &Record,
) -> (r: Result<bool, EvalError>)
    requires
        a.wf(),
        b.wf(),
    ensures
        ({
            let spec_r = rec_lt(
                fields.deep_view(),
                orderings@.map_values(|o: Ordering| o.model()),
                a.model(),
                b.model(),
            );
            match r {
                Ok(x) => spec_r == Ok::<bool, EvalErrorKind>(x),
                Err(e) => spec_r == Err::<bool, EvalErrorKind>(e.kind),
            }
        }),
{
    let ka = rec_key_exec(fields, a)?;
    let kb = rec_key_exec(fields, b)?;
    key_lt_exec(orderings, &ka, &kb)
}

/// Sorts the rows by the stable insertion sort, or reports the first
/// comparison failure.
fn sort_rows(
    fields: &Vec<VariableName>,
    orderings: &Vec<Ordering>,
    rows: Vec<Record>,
) -> (r: Result<Vec<Record>, EvalError>)
    requires
        forall|i: int| 0 <= i < rows@.len() ==> (#[trigger] rows@[i]).wf(),
    ensures
        match r {
            Ok(out) => {
                &&& out@.map_values(|x: Record| x.model()) == sort_records(
                    fields.deep_view(),
                    orderings@.map_values(|o: Ordering| o.model()),
                    rows@.map_values(|x: Record| x.model()),
                )
                &&& forall|i: int| 0 <= i < out@.len() ==> (#[trigger] out@[i]).wf()
            },
            Err(e) => ({
                let rowsm = rows@.map_values(|x: Record| x.model());
                exists|a: int, b: int|
                    #![trigger rowsm[a], rowsm[b]]
                    0 <= a < rows@.len() && 0 <= b < rows@.len() && rec_lt(
                        fields.deep_view(),
                        orderings@.map_values(|o: Ordering| o.model()),
                        rowsm[a],
                        rowsm[b],
                    ) == Err::<bool, EvalErrorKind>(e.kind)
            }),
        },
        ({
            let rowsm = rows@.map_values(|x: Record| x.model());
            forall|a: int, b: int|
                #![trigger rowsm[a], rowsm[b]]
                0 <= a < rows@.len() && 0 <= b < rows@.len() ==> rec_lt(
                    fields.deep_view(),
                    orderings@.map_values(|o: Ordering| o.model()),
                    rowsm[a],
                    rowsm[b],
                ) is Ok
        }) ==> r is Ok,
{
    let ghost fm = fields.deep_view();
    let ghost om = orderings@.map_values(|o: Ordering| o.model());
    let ghost rowsm = rows@.map_values(|x: Record| x.model());
    let mut sorted: Vec<Record> = Vec::new();
    proof {
        assert(rowsm.take(0) =~= Seq::<RecordModel>::empty());
        assert(sorted@.map_values(|x: Record| x.model()) =~= Seq::<RecordModel>::empty());
    }
    let mut i: usize = 0;
    while i < rows.len()
        invariant
            i <= rows@.len(),
            rowsm == rows@.map_values(|x: Record| x.model()),
            rowsm.len() == rows@.len(),
            sorted@.map_values(|x: Record| x.model()) == sort_records(fm, om, rowsm.take(i as int)),
            forall|j: int| 0 <= j < sorted@.len() ==> (#[trigger] sorted@[j]).wf(),
        decreases rows@.len() - i,
    {
        let ghost sortedm = sorted@.map_values(|x: Record| x.model());
        let row = rows[i].clone();
        let mut k: usize = sorted.len();
        let mut stop = false;
        proof {
            assert(sortedm.skip(k as int) =~= Seq::<RecordModel>::empty());
            assert(sortedm.take(k as int) =~= sortedm);
            assert(insert_sorted(fm, om, row.model(), sortedm) + Seq::<RecordModel>::empty()
                =~= insert_sorted(fm, om, row.model(), sortedm));
        }
        while k > 0 && !stop
            invariant
                k <= sorted@.len(),
                row.wf(),
                row.model() == rowsm[i as int],
                sortedm == sorted@.map_values(|x: Record| x.model()),
                sortedm.len() == sorted@.len(),
                forall|j: int| 0 <= j < sorted@.len() ==> (#[trigger] sorted@[j]).wf(),
                insert_sorted(fm, om, row.model(), sortedm) == insert_sorted(
                    fm,
                    om,
                    row.model(),
                    sortedm.take(k as int),
                ) + sortedm.skip(k as int),
                stop ==> k > 0 && (rec_lt(fm, om, row.model(), sortedm[k - 1]) matches Ok(b)
                    && !b),
            decreases k, (if stop { 0int } else { 1int }),
        {
            let cmp = match rec_lt_exec(fields, orderings, &row, &sorted[k - 1]) {
                Ok(c) => c,
                Err(e) => {
                    proof {
                        lemma_sort_records_elements(fm, om, rowsm.take(i as int));
                        assert(sortedm[k - 1] == sorted@[k - 1].model());
                        assert(rowsm.take(i as int).contains(sortedm[k - 1]));
                        let w = choose|w: int|
                            0 <= w < rowsm.take(i as int).len() && rowsm.take(i as int)[w]
                                == sortedm[k - 1];
                        assert(rowsm[w] == sortedm[k - 1]);
                        assert(rec_lt(fm, om, rowsm[i as int], rowsm[w]) == Err::<
                            bool,
                            EvalErrorKind,
                        >(e.kind));
                    }
                    return Err(e);
                },
            };
            if cmp {
                proof {
                    assert(sortedm.take(k as int).last() == sortedm[k - 1]);
                    assert(sortedm.take(k as int).drop_last() =~= sortedm.take(k - 1));
                    assert(insert_sorted(fm, om, row.model(), sortedm.take(k - 1)).push(
                        sortedm[k - 1],
                    ) + sortedm.skip(k as int) =~= insert_sorted(
                        fm,
                        om,
                        row.model(),
                        sortedm.take(k - 1),
                    ) + sortedm.skip(k - 1));
                }
                k = k - 1;
            } else {
                stop = true;
            }
        }
        let pos = k;
        proof {
            if stop {
                assert(sortedm.take(k as int).last() == sortedm[k - 1]);
                assert(insert_sorted(fm, om, row.model(), sortedm.take(k as int))
                    == sortedm.take(k as int).push(row.model()));
                assert(sortedm.take(k as int).push(row.model()) + sortedm.skip(k as int)
                    =~= sortedm.insert(k as int, row.model()));
            } else {
                assert(k == 0);
                assert(sortedm.take(0) =~= Seq::<RecordModel>::empty());
                assert(insert_sorted(fm, om, row.model(), sortedm.take(0)) =~= seq![row.model()]);
                assert(seq![row.model()] + sortedm.skip(0) =~= sortedm.insert(0, row.model()));
                assert(sortedm.skip(0) =~= sortedm);
            }
        }
        sorted.insert(pos, row);
        proof {
            assert(sorted@.map_values(|x: Record| x.model()) =~= sortedm.insert(
                pos as int,
                rowsm[i as int],
            ));
            assert(rowsm.take(i + 1).drop_last() =~= rowsm.take(i as int));
            assert(rowsm.take(i + 1).last() == rowsm[i as int]);
        }
        i += 1;
    }
    proof {
        assert(rowsm.take(rows@.len() as int) =~= rowsm);
    }
    Ok(sorted)
}

/// Consumes and buffers the entire child stream on the first pull, sorts
/// it, then yields the sorted records one by one.
pub struct OrderByStream<S: RecordStream> {
    pub fields: Vec<VariableName>,
    pub orderings: Vec<Ordering>,
    pub source: S,
    pub buffered: Option<Vec<Record>>,
    pub pos: usize,
}

impl<S: RecordStream> OrderByStream<S> {
    pub fn new(fields: Vec<VariableName>, orderings: Vec<Ordering>, source: S) -> (r: Self)
        requires
            source.wf(),
        ensures
            r.fields == fields,
            r.orderings == orderings,
            r.source == source,
            r.wf(),
            r.records() == sort_records(
                fields.deep_view(),
                orderings@.map_values(|o: Ordering| o.model()),
                source.records(),
            ),
    {
        OrderByStream { fields, orderings, source, buffered: None, pos: 0 }
    }
}

impl<S: RecordStream> RecordStream for OrderByStream<S> {
    open spec fn wf(&self) -> bool {
        &&& self.source.wf()
        &&& match self.buffered {
            Option::Some(buf) => self.pos <= buf@.len() && forall|i: int|
                0 <= i < buf@.len() ==> (#[trigger] buf@[i]).wf(),
            Option::None => true,
        }
    }

    open spec fn records(&self) -> Seq<RecordModel> {
        match self.buffered {
            Option::None => sort_records(
                self.fields.deep_view(),
                self.orderings@.map_values(|o: Ordering| o.model()),
                self.source.records(),
            ),
            Option::Some(buf) => buf@.map_values(|x: Record| x.model()).skip(self.pos as int),
        }
    }

    open spec fn may_fail(&self) -> bool {
        match self.buffered {
            Option::Some(_) => false,
            Option::None => self.source.may_fail() || exists|a: int, b: int|
                #![trigger self.source.records()[a], self.source.records()[b]]
                0 <= a < self.source.records().len() && 0 <= b < self.source.records().len()
                    && rec_lt(
                    self.fields.deep_view(),
                    self.orderings@.map_values(|o: Ordering| o.model()),
                    self.source.records()[a],
                    self.source.records()[b],
                ) is Err,
        }
    }

    fn next(&mut self) -> (r: Result<Option<Record>, EvalError>)
        ensures
            old(self).buffered is Some ==> r is Ok,
    {
        if self.buffered.is_none() {
            let ghost src0 = self.source.records();
            let mut rows: Vec<Record> = Vec::new();
            let mut done = false;
            proof {
                assert(rows@.map_values(|x: Record| x.model()) + src0 =~= src0);
            }
            while !done
                invariant
                    self.source.wf(),
                    self.fields == old(self).fields,
                    self.orderings == old(self).orderings,
                    self.buffered == old(self).buffered,
                    self.pos == old(self).pos,
                    forall|i: int| 0 <= i < rows@.len() ==> (#[trigger] rows@[i]).wf(),
                    rows@.map_values(|x: Record| x.model()) + self.source.records() == src0,
                    self.source.may_fail() ==> old(self).source.may_fail(),
                    done ==> self.source.records().len() == 0,
                decreases self.source.records().len(), (if done { 0int } else { 1int }),
            {
                let ghost rowsm = rows@.map_values(|x: Record| x.model());
                let pulled = self.source.next()?;
                match pulled {
                    Some(record) => {
                        rows.push(record);
                        proof {
                            assert(rows@.map_values(|x: Record| x.model()) =~= rowsm.push(
                                rows@.last().model(),
                            ));
                            assert(rowsm.push(rows@.last().model()) + self.source.records()
                                =~= src0);
                        }
                    },
                    None => {
                        done = true;
                    },
                }
            }
            proof {
                assert(rows@.map_values(|x: Record| x.model()) + self.source.records()
                    =~= rows@.map_values(|x: Record| x.model()));
                assert(rows@.map_values(|x: Record| x.model()) =~= src0);
            }
            let sorted = match sort_rows(&self.fields, &self.orderings, rows) {
                Ok(out) => out,
                Err(e) => {
                    proof {
                        let rowsm = rows@.map_values(|x: Record| x.model());
                        let (a, b) = choose|a: int, b: int|
                            0 <= a < rows@.len() && 0 <= b < rows@.len() && rec_lt(
                                self.fields.deep_view(),
                                self.orderings@.map_values(|o: Ordering| o.model()),
                                rowsm[a],
                                rowsm[b],
                            ) == Err::<bool, EvalErrorKind>(e.kind);
                        assert(old(self).source.records()[a] == rowsm[a]);
                        assert(old(self).source.records()[b] == rowsm[b]);
                        assert(rec_lt(
                            old(self).fields.deep_view(),
                            old(self).orderings@.map_values(|o: Ordering| o.model()),
                            old(self).source.records()[a],
                            old(self).source.records()[b],
                        ) is Err);
                        assert(old(self).may_fail());
                    }
                    return Err(e);
                },
            };
            self.buffered = Some(sorted);
            self.pos = 0;
            proof {
                assert(self.records() =~= old(self).records());
            }
        }
        match &self.buffered {
            Some(buf) => {
                if self.pos < buf.len() {
                    let record = buf[self.pos].clone();
                    let ghost bufm = buf@.map_values(|x: Record| x.model());
                    proof {
                        assert(bufm.skip(self.pos as int)[0] == bufm[self.pos as int]);
                        assert(bufm.skip(self.pos as int).skip(1) =~= bufm.skip(self.pos + 1));
                    }
                    self.pos = self.pos + 1;
                    Ok(Some(record))
                } else {
                    proof {
                        assert(buf@.map_values(|x: Record| x.model()).skip(self.pos as int).len()
                            == 0);
                    }
                    Ok(None)
                }
            },
            None => Ok(None),
        }
    }

    fn close(&mut self) {
        self.source.close();
    }
}


/// No character sequence precedes itself.
proof fn lemma_seq_char_lt_irrefl(s: Seq<char>)
    ensures
        !seq_char_lt(s, s),
    decreases s.len(),
{
    if s.len() > 0 {
        lemma_seq_char_lt_irrefl(s.drop_first());
    }
}

/// A key never strictly precedes itself.
proof fn lemma_key_lt_irrefl(ords: Seq<OrderingModel>, k: Seq<ValueModel>)
    ensures
        key_lt(ords, k, k) matches Ok(b) ==> !b,
    decreases k.len(),
{
    if k.len() > 0 && ords.len() > 0 {
        match k[0] {
            ValueModel::Str(cs) => {
                lemma_seq_char_lt_irrefl(cs);
            },
            _ => {
            },
        }
        lemma_key_lt_irrefl(ords.drop_first(), k.drop_first());
    }
}

/// Every element of an insertion came from the inserted element or the
/// receiving sequence.
proof fn lemma_insert_sorted_elements(
    fields: Seq<Seq<char>>,
    ords: Seq<OrderingModel>,
    x: RecordModel,
    s: Seq<RecordModel>,
)
    ensures
        forall|j: int|
            0 <= j < insert_sorted(fields, ords, x, s).len() ==> #[trigger] insert_sorted(
                fields,
                ords,
                x,
                s,
            )[j] == x || s.contains(insert_sorted(fields, ords, x, s)[j]),
    decreases s.len(),
{
    if s.len() > 0 {
        lemma_insert_sorted_elements(fields, ords, x, s.drop_last());
        assert(s.contains(s.last())) by {
            assert(s[s.len() - 1] == s.last());
        }
        assert(forall|i: int|
            0 <= i < s.len() - 1 ==> s.drop_last()[i] == s[i]);
        assert forall|y: RecordModel| s.drop_last().contains(y) implies s.contains(y) by {
            let w = choose|w: int| 0 <= w < s.drop_last().len() && s.drop_last()[w] == y;
            assert(s[w] == y);
        }
        match rec_lt(fields, ords, x, s.last()) {
            Ok(true) => {
                let t = insert_sorted(fields, ords, x, s.drop_last());
                assert(forall|j: int|
                    0 <= j < t.len() ==> t.push(s.last())[j] == t[j]);
                assert(t.push(s.last())[t.len() as int] == s.last());
            },
            _ => {
                assert(forall|j: int|
                    0 <= j < s.len() ==> s.push(x)[j] == s[j]);
                assert(s.push(x)[s.len() as int] == x);
            },
        }
    }
}

/// Every element of the sorted sequence came from the original.
proof fn lemma_sort_records_elements(
    fields: Seq<Seq<char>>,
    ords: Seq<OrderingModel>,
    s: Seq<RecordModel>,
)
    ensures
        forall|j: int|
            0 <= j < sort_records(fields, ords, s).len() ==> s.contains(
                #[trigger] sort_records(fields, ords, s)[j],
            ),
    decreases s.len(),
{
    if s.len() > 0 {
        lemma_sort_records_elements(fields, ords, s.drop_last());
        lemma_insert_sorted_elements(fields, ords, s.last(), sort_records(fields, ords, s.drop_last()));
        assert(s[s.len() - 1] == s.last());
        assert(s.contains(s.last()));
        assert(forall|i: int|
            0 <= i < s.len() - 1 ==> s.drop_last()[i] == s[i]);
        assert forall|y: RecordModel| s.drop_last().contains(y) implies s.contains(y) by {
            let w = choose|w: int| 0 <= w < s.drop_last().len() && s.drop_last()[w] == y;
            assert(s[w] == y);
        }
        let t = sort_records(fields, ords, s.drop_last());
        assert forall|j: int|
            0 <= j < sort_records(fields, ords, s).len() implies s.contains(
            #[trigger] sort_records(fields, ords, s)[j],
        ) by {
            let y = sort_records(fields, ords, s)[j];
            if y != s.last() {
                assert(t.contains(y));
                let w = choose|w: int| 0 <= w < t.len() && t[w] == y;
                assert(s.drop_last().contains(t[w]));
            }
        }
    }
}

/// Filtering an insertion: the inserted record lands at the end of its own
/// key's subsequence, and other keys' subsequences are untouched.
proof fn lemma_filter_insert_sorted(
    fields: Seq<Seq<char>>,
    ords: Seq<OrderingModel>,
    x: RecordModel,
    s: Seq<RecordModel>,
    key: Seq<ValueModel>,
)
    requires
        forall|j: int| 0 <= j < s.len() ==> #[trigger] rec_lt(fields, ords, x, s[j]) is Ok,
    ensures
        ({
            let pred = (|r: RecordModel|
                rec_key(fields, r) == Ok::<Seq<ValueModel>, EvalErrorKind>(key));
            insert_sorted(fields, ords, x, s).filter(pred) == (if pred(x) {
                s.filter(pred).push(x)
            } else {
                s.filter(pred)
            })
        }),
    decreases s.len(),
{
    reveal(Seq::filter);
    let pred = (|r: RecordModel| rec_key(fields, r) == Ok::<Seq<ValueModel>, EvalErrorKind>(key));
    if s.len() == 0 {
        assert(seq![x].drop_last() =~= Seq::<RecordModel>::empty());
        assert(seq![x].last() == x);
        assert(s.filter(pred) =~= Seq::<RecordModel>::empty());
    } else {
        assert(forall|i: int|
            0 <= i < s.len() - 1 ==> s.drop_last()[i] == s[i]);
        assert(rec_lt(fields, ords, x, s.last()) is Ok) by {
            assert(s[s.len() - 1] == s.last());
        }
        match rec_lt(fields, ords, x, s.last()) {
            Ok(true) => {
                lemma_filter_insert_sorted(fields, ords, x, s.drop_last(), key);
                let t = insert_sorted(fields, ords, x, s.drop_last());
                assert(t.push(s.last()).drop_last() =~= t);
                assert(t.push(s.last()).last() == s.last());
                if pred(x) && pred(s.last()) {
                    lemma_key_lt_irrefl(ords, key);
                    assert(false);
                }
            },
            _ => {
                assert(insert_sorted(fields, ords, x, s) == s.push(x));
                assert(s.push(x).drop_last() =~= s);
                assert(s.push(x).last() == x);
            },
        }
    }
}

/// Ordering law: the sort is stable. For any one key, the records holding
/// that key appear in the sorted output exactly as they appeared in the
/// input: equal-key rows retain their original relative order. The law
/// asks only that the rows compare without error.
pub proof fn lemma_orderby_stable(
    fields: Seq<Seq<char>>,
    ords: Seq<OrderingModel>,
    s: Seq<RecordModel>,
    key: Seq<ValueModel>,
)
    requires
        forall|a: int, b: int|
            0 <= a < s.len() && 0 <= b < s.len() ==> #[trigger] rec_lt(
                fields,
                ords,
                s[a],
                s[b],
            ) is Ok,
    ensures
        ({
            let pred = (|r: RecordModel|
                rec_key(fields, r) == Ok::<Seq<ValueModel>, EvalErrorKind>(key));
            sort_records(fields, ords, s).filter(pred) == s.filter(pred)
        }),
    decreases s.len(),
{
    reveal(Seq::filter);
    let pred = (|r: RecordModel| rec_key(fields, r) == Ok::<Seq<ValueModel>, EvalErrorKind>(key));
    if s.len() == 0 {
    } else {
        let dl = s.drop_last();
        assert(forall|i: int| 0 <= i < s.len() - 1 ==> dl[i] == s[i]);
        lemma_orderby_stable(fields, ords, dl, key);
        let t = sort_records(fields, ords, dl);
        lemma_sort_records_elements(fields, ords, dl);
        assert(s[s.len() - 1] == s.last());
        assert forall|j: int| 0 <= j < t.len() implies #[trigger] rec_lt(
            fields,
            ords,
            s.last(),
            t[j],
        ) is Ok by {
            assert(dl.contains(t[j]));
            let w = choose|w: int| 0 <= w < dl.len() && dl[w] == t[j];
            assert(s[w] == t[j]);
        }
        lemma_filter_insert_sorted(fields, ords, s.last(), t, key);
    }
}

} // verus!
