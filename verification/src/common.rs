//! Scalar values, variable environments, and the engine's error type.

use vstd::prelude::*;

verus! {

/// A variable identifier, unique within a binding scope.
pub type VariableName = String;

/// The kind of a failure reported by evaluation or execution.
#[derive(Clone, Copy, Debug, PartialEq, Eq, Structural)]
pub enum EvalErrorKind {
    /// A relation or operator was applied to incompatible value kinds.
    TypeMismatch,
    /// An expression referenced a name absent from the merged environment.
    UndefinedVariable,
    /// An aggregate was finalized with zero contributing rows, or a
    /// percentile argument lay outside the unit interval.
    AggregateDomain,
    /// An expression called a function the engine does not provide.
    UnknownFunction,
    /// A record source failed while reading.
    Read,
}

/// A failure reported by evaluation or execution; never swallowed, always
/// returned to the immediate caller.
#[derive(Debug)]
pub struct EvalError {
    pub kind: EvalErrorKind,
    pub message: String,
}

impl EvalError {
    pub fn new(kind: EvalErrorKind, message: &str) -> (r: EvalError)
        ensures
            r.kind == kind,
            r.message@ == message@,
    {
        EvalError { kind, message: message.to_owned() }
    }
}

/// A typed scalar value: immutable, cheaply cloned, totally ordered within
/// a kind; comparing across kinds is a type error.
#[derive(Debug, PartialEq, Eq)]
pub enum Value {
    Int(i64),
    String(String),
    Bool(bool),
}

/// The mathematical shape of a [`Value`]: integers, character sequences
/// and booleans.
pub ghost enum ValueModel {
    Int(int),
    Str(Seq<char>),
    Bool(bool),
}

impl Value {
    /// The mathematical value this scalar denotes.
    pub open spec fn model(self) -> ValueModel {
        match self {
            Value::Int(i) => ValueModel::Int(i as int),
            Value::String(s) => ValueModel::Str(s@),
            Value::Bool(b) => ValueModel::Bool(b),
        }
    }
}

impl Clone for Value {
    fn clone(&self) -> (r: Self)
        ensures
            r == *self,
    {
        match self {
            Value::Int(i) => Value::Int(*i),
            Value::String(s) => Value::String(s.clone()),
            Value::Bool(b) => Value::Bool(*b),
        }
    }
}

/// Whether two values are equal; values of different kinds are never equal.
pub fn value_eq(a: &Value, b: &Value) -> (r: bool)
    ensures
        r == (a.model() == b.model()),
{
    match (a, b) {
        (Value::Int(x), Value::Int(y)) => *x == *y,
        (Value::String(x), Value::String(y)) => *x == *y,
        (Value::Bool(x), Value::Bool(y)) => *x == *y,
        _ => false,
    }
}

/// Where raw records originate; carried unchanged from the logical plan
/// through the physical plan into the data-source stream.
#[derive(Debug, PartialEq, Eq)]
pub enum DataSource {
    Stdin,
    File(String),
}

/// The mathematical shape of a [`DataSource`].
pub ghost enum DataSourceModel {
    Stdin,
    File(Seq<char>),
}

impl DataSource {
    pub open spec fn model(self) -> DataSourceModel {
        match self {
            DataSource::Stdin => DataSourceModel::Stdin,
            DataSource::File(name) => DataSourceModel::File(name@),
        }
    }
}

impl Clone for DataSource {
    fn clone(&self) -> (r: Self)
        ensures
            r == *self,
    {
        match self {
            DataSource::Stdin => DataSource::Stdin,
            DataSource::File(name) => DataSource::File(name.clone()),
        }
    }
}

/// The environment an entry sequence denotes: later entries override
/// earlier ones with the same name.
pub open spec fn entries_model(s: Seq<(String, Value)>) -> Map<Seq<char>, ValueModel>
    decreases s.len(),
{
    if s.len() == 0 {
        Map::empty()
    } else {
        entries_model(s.drop_last()).insert(s.last().0@, s.last().1.model())
    }
}

/// No two entries bind the same name.
pub open spec fn entries_unique(s: Seq<(String, Value)>) -> bool {
    forall|i: int, j: int| 0 <= i < j < s.len() ==> s[i].0@ != s[j].0@
}

/// A mapping from variable names to values; insertion order is irrelevant
/// to its meaning, and a later insert of the same name overwrites.
#[derive(Debug, PartialEq, Eq)]
pub struct Variables {
    pub entries: Vec<(VariableName, Value)>,
}

impl Variables {
    /// Internal invariant: no duplicate names.
    pub open spec fn wf(self) -> bool {
        entries_unique(self.entries@)
    }

    /// The name-to-value mapping this environment denotes.
    pub open spec fn model(self) -> Map<Seq<char>, ValueModel> {
        entries_model(self.entries@)
    }

    /// Inserts a binding; a binding of the same name is overwritten.
    pub fn insert(&mut self, name: VariableName, value: Value)
        requires
            old(self).wf(),
        ensures
            final(self).wf(),
            final(self).model() == old(self).model().insert(name@, value.model()),
    {
        let ghost entries0 = self.entries@;
        let mut i: usize = 0;
        while i < self.entries.len()
            invariant
                self.entries@ == entries0,
                forall|j: int| 0 <= j < i ==> entries0[j].0@ != name@,
            decreases self.entries@.len() - i,
        {
            if string_eq(&self.entries[i].0, &name) {
                let _ = self.entries.remove(i);
                proof {
                    lemma_entries_model_remove(entries0, i as int);
                    assert(forall|a: int, b: int|
                        0 <= a < b < self.entries@.len() ==> self.entries@[a].0@
                            != self.entries@[b].0@) by {
                        assert(forall|a: int|
                            0 <= a < self.entries@.len() ==> self.entries@[a] == (if a < i {
                                entries0[a]
                            } else {
                                entries0[a + 1]
                            }));
                    }
                    assert(forall|j: int|
                        0 <= j < self.entries@.len() ==> self.entries@[j].0@ != name@) by {
                        assert(forall|a: int|
                            0 <= a < self.entries@.len() ==> self.entries@[a] == (if a < i {
                                entries0[a]
                            } else {
                                entries0[a + 1]
                            }));
                    }
                }
                let ghost entries1 = self.entries@;
                self.entries.push((name, value));
                proof {
                    assert(self.entries@.drop_last() =~= entries1);
                    assert(entries_unique(self.entries@));
                    assert(self.model() =~= old(self).model().insert(name@, value.model()));
                }
                return ;
            }
            i += 1;
        }
        let ghost entries1 = self.entries@;
        self.entries.push((name, value));
        proof {
            assert(self.entries@.drop_last() =~= entries1);
            assert(entries_unique(self.entries@));
        }
    }

    /// Looks a name up.
    pub fn get(&self, name: &VariableName) -> (r: Option<&Value>)
        requires
            self.wf(),
        ensures
            match r {
                Some(v) => self.model().contains_key(name@) && v.model() == self.model()[name@],
                None => !self.model().contains_key(name@),
            },
    {
        let mut i: usize = 0;
        while i < self.entries.len()
            invariant
                forall|j: int| 0 <= j < i ==> self.entries@[j].0@ != name@,
            decreases self.entries@.len() - i,
        {
            if string_eq(&self.entries[i].0, name) {
                proof {
                    lemma_entries_model_lookup(self.entries@, name@);
                }
                return Some(&self.entries[i].1);
            }
            i += 1;
        }
        proof {
            lemma_entries_model_absent(self.entries@, name@);
        }
        None
    }

    /// The number of bindings held.
    pub fn len(&self) -> (r: usize)
        ensures
            r == self.entries@.len(),
    {
        self.entries.len()
    }
}

impl Clone for Variables {
    fn clone(&self) -> (r: Self)
        ensures
            r.entries@ == self.entries@,
            r.wf() == self.wf(),
            r.model() == self.model(),
    {
        let mut entries: Vec<(VariableName, Value)> = Vec::new();
        let mut i: usize = 0;
        while i < self.entries.len()
            invariant
                i <= self.entries@.len(),
                entries@ =~= self.entries@.take(i as int),
            decreases self.entries@.len() - i,
        {
            entries.push((self.entries[i].0.clone(), self.entries[i].1.clone()));
            i += 1;
        }
        proof {
            assert(entries@ =~= self.entries@);
        }
        Variables { entries }
    }
}

impl Default for Variables {
    /// An empty environment.
    fn default() -> (r: Self)
        ensures
            r.wf(),
            r.model() == Map::<Seq<char>, ValueModel>::empty(),
            r.entries@.len() == 0,
    {
        Variables { entries: Vec::new() }
    }
}

/// An empty environment.
pub fn empty_variables() -> (r: Variables)
    ensures
        r.wf(),
        r.model() == Map::<Seq<char>, ValueModel>::empty(),
        r.entries@.len() == 0,
{
    Variables { entries: Vec::new() }
}

/// Combines two environments; on a name collision the right-hand side wins.
pub fn merge(a: Variables, b: Variables) -> (r: Variables)
    requires
        a.wf(),
        b.wf(),
    ensures
        r.wf(),
        r.model() == a.model().union_prefer_right(b.model()),
{
    let mut r = a;
    let mut i: usize = 0;
    while i < b.entries.len()
        invariant
            r.wf(),
            i <= b.entries@.len(),
            r.model() =~= a.model().union_prefer_right(entries_model(b.entries@.take(i as int))),
        decreases b.entries@.len() - i,
    {
        let name = b.entries[i].0.clone();
        let value = b.entries[i].1.clone();
        proof {
            assert(b.entries@.take(i + 1).drop_last() =~= b.entries@.take(i as int));
            assert(b.entries@.take(i + 1).last() == b.entries@[i as int]);
        }
        r.insert(name, value);
        i += 1;
        proof {
            assert(r.model() =~= a.model().union_prefer_right(
                entries_model(b.entries@.take(i as int)),
            ));
        }
    }
    proof {
        assert(b.entries@.take(b.entries@.len() as int) =~= b.entries@);
    }
    r
}

/// Merge precedence law: for all environments `a`, `b` and any name bound in
/// both, the merged environment takes `b`'s value.
pub proof fn lemma_merge_precedence(
    a: Map<Seq<char>, ValueModel>,
    b: Map<Seq<char>, ValueModel>,
    k: Seq<char>,
)
    requires
        a.contains_key(k),
        b.contains_key(k),
    ensures
        a.union_prefer_right(b).contains_key(k),
        a.union_prefer_right(b)[k] == b[k],
{
}

/// Whether two strings hold the same characters.
pub fn string_eq(a: &String, b: &String) -> (r: bool)
    ensures
        r == (a@ == b@),
{
    *a == *b
}

/// Removing the entry at `i` from a uniquely keyed entry sequence removes
/// exactly its binding from the environment.
proof fn lemma_entries_model_remove(s: Seq<(String, Value)>, i: int)
    requires
        entries_unique(s),
        0 <= i < s.len(),
    ensures
        entries_model(s.remove(i)) == entries_model(s).remove(s[i].0@),
    decreases s.len(),
{
    if i == s.len() - 1 {
        assert(s.remove(i) =~= s.drop_last());
        lemma_entries_model_absent(s.drop_last(), s[i].0@);
        assert(entries_model(s.drop_last()) =~= entries_model(s).remove(s[i].0@));
    } else {
        let t = s.drop_last();
        lemma_entries_model_remove(t, i);
        assert(s.remove(i).drop_last() =~= t.remove(i));
        assert(s.remove(i).last() == s.last());
        assert(entries_model(s.remove(i)) == entries_model(t.remove(i)).insert(
            s.last().0@,
            s.last().1.model(),
        ));
        assert(entries_model(s.remove(i)) =~= entries_model(s).remove(s[i].0@));
    }
}

/// A name bound by no entry is absent from the environment.
proof fn lemma_entries_model_absent(s: Seq<(String, Value)>, k: Seq<char>)
    requires
        forall|j: int| 0 <= j < s.len() ==> s[j].0@ != k,
    ensures
        !entries_model(s).contains_key(k),
    decreases s.len(),
{
    if s.len() > 0 {
        lemma_entries_model_absent(s.drop_last(), k);
    }
}

/// The final entry's binding is present in the environment.
proof fn lemma_entries_model_last(s: Seq<(String, Value)>)
    requires
        s.len() > 0,
    ensures
        entries_model(s).contains_key(s.last().0@),
        entries_model(s)[s.last().0@] == s.last().1.model(),
{
}

/// In a uniquely keyed entry sequence, the environment binds exactly the
/// entries' names, each to its entry's value.
proof fn lemma_entries_model_lookup(s: Seq<(String, Value)>, k: Seq<char>)
    requires
        entries_unique(s),
    ensures
        entries_model(s).contains_key(k) <==> exists|i: int| 0 <= i < s.len() && s[i].0@ == k,
        forall|i: int|
            0 <= i < s.len() && s[i].0@ == k ==> entries_model(s).contains_key(k)
                && entries_model(s)[k] == s[i].1.model(),
    decreases s.len(),
{
    if s.len() > 0 {
        lemma_entries_model_lookup(s.drop_last(), k);
        if s.last().0@ == k {
            assert(forall|i: int|
                0 <= i < s.len() && s[i].0@ == k ==> i == s.len() - 1);
        } else {
            assert(forall|i: int|
                0 <= i < s.len() - 1 ==> s.drop_last()[i] == s[i]);
        }
    }
}


/// The model of an optional name.
pub open spec fn opt_name_model(o: Option<String>) -> Option<Seq<char>> {
    match o {
        Option::None => Option::None,
        Option::Some(s) => Option::Some(s@),
    }
}

/// Clones an optional name.
pub fn clone_opt_name(o: &Option<String>) -> (r: Option<String>)
    ensures
        r == *o,
{
    match o {
        Option::None => Option::None,
        Option::Some(s) => Option::Some(s.clone()),
    }
}

} // verus!
