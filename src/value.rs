//! The value tree that a document parses to, and its mathematical model.
use vstd::prelude::*;

verus! {

/// A parsed value. A `Float` holds its decimal literal with group separators removed
/// (an optional `-`, digits, one `.`, digits); an `Object` holds its fields sorted by name.
#[derive(Debug, PartialEq)]
pub enum Value {
    Integer(i64),
    Float(String),
    String(String),
    Object(Vec<(String, Value)>),
    Boolean(bool),
    List(Vec<Value>),
    Null,
}

/// The model of a `Value`: text as character sequences, numbers as mathematical integers.
pub enum ValueModel {
    Integer(int),
    Float(Seq<char>),
    String(Seq<char>),
    Object(Seq<(Seq<char>, ValueModel)>),
    Boolean(bool),
    List(Seq<ValueModel>),
    Null,
}

impl View for Value {
    type V = ValueModel;

    open spec fn view(&self) -> ValueModel
        decreases self,
    {
        match self {
            Value::Integer(i) => ValueModel::Integer(*i as int),
            Value::Float(t) => ValueModel::Float(t@),
            Value::String(t) => ValueModel::String(t@),
            Value::Object(fs) => ValueModel::Object(fields_model(fs@)),
            Value::Boolean(b) => ValueModel::Boolean(*b),
            Value::List(vs) => ValueModel::List(list_model(vs@)),
            Value::Null => ValueModel::Null,
        }
    }
}

pub open spec fn list_model(vs: Seq<Value>) -> Seq<ValueModel>
    decreases vs,
{
    if vs.len() == 0 {
        Seq::empty()
    } else {
        list_model(vs.drop_last()).push(vs.last()@)
    }
}

pub open spec fn fields_model(fs: Seq<(String, Value)>) -> Seq<(Seq<char>, ValueModel)>
    decreases fs,
{
    if fs.len() == 0 {
        Seq::empty()
    } else {
        fields_model(fs.drop_last()).push((fs.last().0@, fs.last().1@))
    }
}

/// The model of a list holds the model of each element, in order.
pub proof fn lemma_list_model(vs: Seq<Value>)
    ensures
        list_model(vs).len() == vs.len(),
        forall|i: int| 0 <= i < vs.len() ==> #[trigger] list_model(vs)[i] == vs[i]@,
    decreases vs.len(),
{
    if vs.len() > 0 {
        lemma_list_model(vs.drop_last());
        assert(list_model(vs) == list_model(vs.drop_last()).push(vs.last()@));
    } else {
        assert(list_model(vs) == Seq::<ValueModel>::empty());
    }
}

/// The model of a field list holds the name and model of each field, in order.
pub proof fn lemma_fields_model(fs: Seq<(String, Value)>)
    ensures
        fields_model(fs).len() == fs.len(),
        forall|i: int| 0 <= i < fs.len() ==> #[trigger] fields_model(fs)[i] == (fs[i].0@, fs[i].1@),
    decreases fs.len(),
{
    if fs.len() > 0 {
        lemma_fields_model(fs.drop_last());
        assert(fields_model(fs) == fields_model(fs.drop_last()).push((fs.last().0@, fs.last().1@)));
    } else {
        assert(fields_model(fs) == Seq::<(Seq<char>, ValueModel)>::empty());
    }
}

impl Value {
    /// A copy of the whole tree.
    pub fn copy(&self) -> (r: Value)
        ensures
            r@ == self@,
        decreases self,
    {
        match self {
            Value::Integer(i) => Value::Integer(*i),
            Value::Float(t) => Value::Float(t.clone()),
            Value::String(t) => Value::String(t.clone()),
            Value::Boolean(b) => Value::Boolean(*b),
            Value::Null => Value::Null,
            Value::List(vs) => {
                let mut out: Vec<Value> = Vec::new();
                let mut i: usize = 0;
                while i < vs.len()
                    invariant
                        i <= vs.len(),
                        list_model(out@) == list_model(vs@.subrange(0, i as int)),
                        *self == Value::List(*vs),
                    decreases vs.len() - i,
                {
                    let ghost before = out@;
                    proof {
                        vstd::std_specs::vec::axiom_vec_index_decreases(*vs, i as int);
                        assert(decreases_to!(*self => self->List_0));
                    }
                    let item = vs[i].copy();
                    out.push(item);
                    assert(out@.drop_last() =~= before);
                    assert(vs@.subrange(0, i + 1).drop_last() =~= vs@.subrange(0, i as int));
                    i = i + 1;
                }
                assert(vs@.subrange(0, i as int) =~= vs@);
                Value::List(out)
            },
            Value::Object(fs) => {
                let mut out: Vec<(String, Value)> = Vec::new();
                let mut i: usize = 0;
                while i < fs.len()
                    invariant
                        i <= fs.len(),
                        fields_model(out@) == fields_model(fs@.subrange(0, i as int)),
                        *self == Value::Object(*fs),
                    decreases fs.len() - i,
                {
                    let ghost before = out@;
                    proof {
                        vstd::std_specs::vec::axiom_vec_index_decreases(*fs, i as int);
                        assert(decreases_to!(*self => self->Object_0));
                        assert(decreases_to!(*self => fs[i as int].1));
                    }
                    let item = (fs[i].0.clone(), fs[i].1.copy());
                    out.push(item);
                    assert(out@.drop_last() =~= before);
                    assert(fs@.subrange(0, i + 1).drop_last() =~= fs@.subrange(0, i as int));
                    i = i + 1;
                }
                assert(fs@.subrange(0, i as int) =~= fs@);
                Value::Object(out)
            },
        }
    }
}

} // verus!
