//! The executable document value.
use vstd::prelude::*;
use crate::model::Node;

verus! {

/// A document value: a piece of text, an ordered list of values, or an
/// ordered list of named entries (a mapping).
#[derive(Debug, PartialEq, Eq)]
pub enum Value {
    Scalar(String),
    Sequence(Vec<Value>),
    Mapping(Vec<(String, Value)>),
}

/// The model of a list of named entries.
pub open spec fn entries_view(entries: Seq<(String, Value)>) -> Seq<(Seq<char>, Node)>
    decreases entries,
{
    Seq::new(
        entries.len(),
        |i: int|
            if 0 <= i < entries.len() {
                (entries[i].0@, entries[i].1.view())
            } else {
                (Seq::empty(), Node::Text(Seq::empty()))
            },
    )
}

impl Value {
    pub open spec fn view(&self) -> Node
        decreases self,
    {
        match self {
            Value::Scalar(s) => Node::Text(s@),
            Value::Sequence(items) => {
                proof {
                    assert forall|i: int| 0 <= i < items@.len() implies decreases_to!(self => items@[i]) by {
                        assert(decreases_to!(self => items));
                        assert(decreases_to!(items => items@));
                        assert(decreases_to!(items@ => items@[i]));
                    }
                }
                Node::List(
                    Seq::new(
                        items@.len(),
                        |i: int|
                            if 0 <= i < items@.len() {
                                items@[i].view()
                            } else {
                                Node::Text(Seq::empty())
                            },
                    ),
                )
            },
            Value::Mapping(entries) => {
                proof {
                    assert(decreases_to!(self => entries));
                    assert(decreases_to!(entries => entries@));
                }
                Node::Object(entries_view(entries@))
            },
        }
    }

    /// A copy of this value that shares nothing with it.
    pub fn deep_copy(&self) -> (r: Value)
        ensures
            r@ == self@,
        decreases self,
    {
        match self {
            Value::Scalar(s) => Value::Scalar(s.clone()),
            Value::Sequence(items) => {
                let mut out: Vec<Value> = Vec::new();
                let mut i: usize = 0;
                while i < items.len()
                    invariant
                        *self == Value::Sequence(*items),
                        i <= items@.len(),
                        out@.len() == i,
                        forall|j: int| 0 <= j < i ==> out@[j]@ == items@[j]@,
                    decreases items@.len() - i,
                {
                    proof {
                        assert(decreases_to!(*self => self->Sequence_0));
                        assert(decreases_to!(self->Sequence_0 => self->Sequence_0[i as int]));
                    }
                    let c = items[i].deep_copy();
                    out.push(c);
                    i = i + 1;
                }
                let r = Value::Sequence(out);
                assert(r@->List_0 =~= self@->List_0);
                r
            },
            Value::Mapping(entries) => {
                let out = copy_entries(entries);
                Value::Mapping(out)
            },
        }
    }
}

/// A copy of a list of named entries.
pub fn copy_entries(entries: &Vec<(String, Value)>) -> (r: Vec<(String, Value)>)
    ensures
        entries_view(r@) == entries_view(entries@),
    decreases entries,
{
    let mut out: Vec<(String, Value)> = Vec::new();
    let mut i: usize = 0;
    while i < entries.len()
        invariant
            i <= entries@.len(),
            out@.len() == i,
            forall|j: int| 0 <= j < i ==> out@[j].0@ == entries@[j].0@ && out@[j].1@ == entries@[j].1@,
        decreases entries@.len() - i,
    {
        proof {
            assert(decreases_to!(entries => entries@));
            assert(decreases_to!(entries@ => entries@[i as int]));
            assert(decreases_to!(entries@[i as int] => entries@[i as int].1));
        }
        let v = entries[i].1.deep_copy();
        out.push((entries[i].0.clone(), v));
        i = i + 1;
    }
    assert(entries_view(out@) =~= entries_view(entries@));
    out
}

} // verus!
