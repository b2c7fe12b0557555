//! Runtime values, evaluation contexts and the expressions that read them.
use vstd::prelude::*;

verus! {

/// A single runtime value.
pub enum Value {
    Null,
    Boolean(bool),
    Number(i64),
    Text(String),
}

/// Two values are equal: of one kind, with equal contents.
pub open spec fn same_value(a: Value, b: Value) -> bool {
    match (a, b) {
        (Value::Null, Value::Null) => true,
        (Value::Boolean(x), Value::Boolean(y)) => x == y,
        (Value::Number(x), Value::Number(y)) => x == y,
        (Value::Text(x), Value::Text(y)) => x@ == y@,
        _ => false,
    }
}

impl Value {
    /// A copy of the value.
    pub fn duplicate(&self) -> (r: Value)
        ensures
            r == *self,
    {
        match self {
            Value::Null => Value::Null,
            Value::Boolean(b) => Value::Boolean(*b),
            Value::Number(n) => Value::Number(*n),
            Value::Text(s) => Value::Text(s.clone()),
        }
    }

    /// Whether the two values are equal.
    pub fn same(&self, other: &Value) -> (r: bool)
        ensures
            r == same_value(*self, *other),
    {
        match (self, other) {
            (Value::Null, Value::Null) => true,
            (Value::Boolean(x), Value::Boolean(y)) => *x == *y,
            (Value::Number(x), Value::Number(y)) => *x == *y,
            (Value::Text(x), Value::Text(y)) => *x == *y,
            _ => false,
        }
    }
}

/// One named value of a record.
pub struct Field {
    pub name: String,
    pub value: Value,
}

/// What an evaluation produces: one value, a list of values, or a record of named values.
pub enum Outcome {
    Single(Value),
    Multiple(Vec<Value>),
    Record(Vec<Field>),
}

/// The mathematical content of an [`Outcome`].
pub enum OutcomeModel {
    Single(Value),
    Multiple(Seq<Value>),
    Record(Seq<(Seq<char>, Value)>),
}

/// A named binding, as contexts are seen in contracts.
pub type Binding = (Seq<char>, OutcomeModel);

/// The view of the fields of a record.
pub open spec fn fields_view(fs: Seq<Field>) -> Seq<(Seq<char>, Value)> {
    Seq::new(fs.len(), |k: int| (fs[k].name@, fs[k].value))
}

impl View for Outcome {
    type V = OutcomeModel;

    open spec fn view(&self) -> OutcomeModel {
        match self {
            Outcome::Single(v) => OutcomeModel::Single(*v),
            Outcome::Multiple(vs) => OutcomeModel::Multiple(vs@),
            Outcome::Record(fs) => OutcomeModel::Record(fields_view(fs@)),
        }
    }
}

/// Copies a list of values.
pub fn duplicate_values(vs: &Vec<Value>) -> (r: Vec<Value>)
    ensures
        r@ == vs@,
{
    let mut out: Vec<Value> = Vec::new();
    let mut i: usize = 0;
    while i < vs.len()
        invariant
            i <= vs@.len(),
            out@ == vs@.subrange(0, i as int),
        decreases vs@.len() - i,
    {
        out.push(vs[i].duplicate());
        proof {
            assert(out@ =~= vs@.subrange(0, i + 1));
        }
        i = i + 1;
    }
    proof {
        assert(out@ =~= vs@);
    }
    out
}

/// Copies the fields of a record.
pub fn duplicate_fields(fs: &Vec<Field>) -> (r: Vec<Field>)
    ensures
        fields_view(r@) == fields_view(fs@),
{
    let mut out: Vec<Field> = Vec::new();
    let mut i: usize = 0;
    while i < fs.len()
        invariant
            i <= fs@.len(),
            out@.len() == i,
            fields_view(out@) == fields_view(fs@.subrange(0, i as int)),
        decreases fs@.len() - i,
    {
        let ghost before = out@;
        out.push(Field { name: fs[i].name.clone(), value: fs[i].value.duplicate() });
        proof {
            assert forall|k: int| 0 <= k < i implies #[trigger] fields_view(out@)[k] == fields_view(before)[k] by {
                assert(out@[k] == before[k]);
            }
            assert(fields_view(out@) =~= fields_view(fs@.subrange(0, i + 1)));
        }
        i = i + 1;
    }
    proof {
        assert(fs@.subrange(0, fs@.len() as int) =~= fs@);
    }
    out
}

impl Outcome {
    /// A copy of the outcome.
    pub fn duplicate(&self) -> (r: Outcome)
        ensures
            r@ == self@,
    {
        match self {
            Outcome::Single(v) => Outcome::Single(v.duplicate()),
            Outcome::Multiple(vs) => Outcome::Multiple(duplicate_values(vs)),
            Outcome::Record(fs) => Outcome::Record(duplicate_fields(fs)),
        }
    }
}

/// One named binding of a context.
pub struct Entry {
    pub name: String,
    pub value: Outcome,
}

/// A mapping from variable names to outcomes; a later binding of a name hides earlier ones.
pub struct Context {
    pub entries: Vec<Entry>,
}

/// The outcome bound to `name`: the latest binding, or a null value when there is none.
pub open spec fn lookup(ctx: Seq<Binding>, name: Seq<char>) -> OutcomeModel
    decreases ctx.len(),
{
    if ctx.len() == 0 {
        OutcomeModel::Single(Value::Null)
    } else if ctx.last().0 == name {
        ctx.last().1
    } else {
        lookup(ctx.drop_last(), name)
    }
}

impl View for Context {
    type V = Seq<Binding>;

    open spec fn view(&self) -> Seq<Binding> {
        Seq::new(self.entries@.len(), |k: int| (self.entries@[k].name@, self.entries@[k].value@))
    }
}

impl Context {
    /// A context without bindings.
    pub fn new() -> (r: Context)
        ensures
            r@ == Seq::<Binding>::empty(),
    {
        let r = Context { entries: Vec::new() };
        assert(r@ =~= Seq::<Binding>::empty());
        r
    }

    /// Binds `name` to `value`, hiding any earlier binding of the name.
    pub fn set_entry(&mut self, name: &String, value: Outcome)
        ensures
            final(self)@ == old(self)@.push((name@, value@)),
    {
        self.entries.push(Entry { name: name.clone(), value });
        assert(self@ =~= old(self)@.push((name@, value@)));
    }

    /// A copy of the context.
    pub fn duplicate(&self) -> (r: Context)
        ensures
            r@ == self@,
    {
        let mut r = Context::new();
        let mut i: usize = 0;
        while i < self.entries.len()
            invariant
                i <= self@.len(),
                r@ == self@.subrange(0, i as int),
            decreases self@.len() - i,
        {
            r.set_entry(&self.entries[i].name, self.entries[i].value.duplicate());
            assert(r@ =~= self@.subrange(0, i + 1));
            i = i + 1;
        }
        assert(self@.subrange(0, self@.len() as int) =~= self@);
        r
    }

    /// The outcome bound to `name`, or a null value.
    pub fn get_entry(&self, name: &String) -> (r: Outcome)
        ensures
            r@ == lookup(self@, name@),
    {
        let mut k: usize = self.entries.len();
        assert(self@.subrange(0, k as int) =~= self@);
        while k > 0
            invariant
                k <= self@.len(),
                self@.len() == self.entries@.len(),
                lookup(self@, name@) == lookup(self@.subrange(0, k as int), name@),
            decreases k,
        {
            proof {
                assert(self@.subrange(0, k - 1) =~= self@.subrange(0, k as int).drop_last());
            }
            if self.entries[k - 1].name == *name {
                return self.entries[k - 1].value.duplicate();
            }
            k = k - 1;
        }
        Outcome::Single(Value::Null)
    }
}

/// An expression already compiled for evaluation: a constant, or a variable to look up.
pub enum Expression {
    Literal(Value),
    Name(String),
}

/// What the expression yields in a context.
pub open spec fn eval_expression(e: Expression, ctx: Seq<Binding>) -> OutcomeModel {
    match e {
        Expression::Literal(v) => OutcomeModel::Single(v),
        Expression::Name(n) => lookup(ctx, n@),
    }
}

/// The single value that the expression yields in a context.
pub open spec fn eval_scalar(e: Expression, ctx: Seq<Binding>) -> Value {
    scalar_of(eval_expression(e, ctx))
}

/// The single value of an outcome; a list or a record reads as null.
pub open spec fn scalar_of(o: OutcomeModel) -> Value {
    match o {
        OutcomeModel::Single(v) => v,
        _ => Value::Null,
    }
}

impl Expression {
    /// Evaluates the expression in `ctx`.
    pub fn evaluate(&self, ctx: &Context) -> (r: Outcome)
        ensures
            r@ == eval_expression(*self, ctx@),
    {
        match self {
            Expression::Literal(v) => Outcome::Single(v.duplicate()),
            Expression::Name(n) => ctx.get_entry(n),
        }
    }

    /// Evaluates the expression in `ctx` to a single value.
    pub fn evaluate_scalar(&self, ctx: &Context) -> (r: Value)
        ensures
            r == eval_scalar(*self, ctx@),
    {
        match self.evaluate(ctx) {
            Outcome::Single(v) => v,
            _ => Value::Null,
        }
    }
}

} // verus!
