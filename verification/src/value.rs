//! The content value tree.
//!
//! Upstream records are arbitrarily nested: a field holds a scalar, an
//! ordered sequence of values, or an ordered mapping from field names to
//! values.  A mapping that contains the key "de" or "en" is a locale
//! object and is collapsed during decomposition.  The payload is parsed
//! once into this closed tagged form so that the recursion over it is
//! total and exhaustively typed.

use vstd::prelude::*;

verus! {

/// A raw content value as fetched from the upstream snapshot.
///
/// Non-integer numbers are carried as their decimal text, so that the tree
/// holds only exactly representable data; nothing in the pipeline computes
/// with a coordinate, it is only carried through.
#[derive(PartialEq, Eq, Debug)]
pub enum RawValue {
    Null,
    Bool(bool),
    Int(i64),
    /// A non-integer numeric literal, as its decimal text.
    Num(String),
    Text(String),
    List(Vec<RawValue>),
    Dict(Vec<(String, RawValue)>),
}

/// The mathematical model of a [`RawValue`].
#[verifier::ext_equal]
pub enum Val {
    Null,
    Bool(bool),
    Int(int),
    Num(Seq<char>),
    Text(Seq<char>),
    List(Seq<Val>),
    Dict(Seq<(Seq<char>, Val)>),
}

/// The models of the elements of a list, in order.
pub open spec fn views_of(items: Seq<RawValue>) -> Seq<Val>
    decreases items,
{
    if items.len() == 0 {
        Seq::empty()
    } else {
        seq![items[0]@] + views_of(items.drop_first())
    }
}

/// The models of the entries of a mapping, in order.
pub open spec fn entries_view(entries: Seq<(String, RawValue)>) -> Seq<(Seq<char>, Val)>
    decreases entries,
{
    if entries.len() == 0 {
        Seq::empty()
    } else {
        seq![(entries[0].0@, entries[0].1@)] + entries_view(entries.drop_first())
    }
}

impl View for RawValue {
    type V = Val;

    open spec fn view(&self) -> Val
        decreases self,
    {
        match self {
            RawValue::Null => Val::Null,
            RawValue::Bool(b) => Val::Bool(*b),
            RawValue::Int(i) => Val::Int(*i as int),
            RawValue::Num(s) => Val::Num(s@),
            RawValue::Text(s) => Val::Text(s@),
            RawValue::List(items) => Val::List(views_of(items@)),
            RawValue::Dict(entries) => Val::Dict(entries_view(entries@)),
        }
    }
}

impl RawValue {
    /// An equal copy of this value.
    pub fn duplicate(&self) -> (r: RawValue)
        ensures
            r@ == self@,
        decreases *self,
    {
        match self {
            RawValue::Null => RawValue::Null,
            RawValue::Bool(b) => RawValue::Bool(*b),
            RawValue::Int(i) => RawValue::Int(*i),
            RawValue::Num(s) => RawValue::Num(s.clone()),
            RawValue::Text(s) => RawValue::Text(s.clone()),
            RawValue::List(items) => {
                let mut out: Vec<RawValue> = Vec::new();
                let mut j: usize = 0;
                while j < items.len()
                    invariant
                        j <= items@.len(),
                        *self == RawValue::List(*items),
                        out@.len() == j,
                        forall|i: int| 0 <= i < j ==> out@[i]@ == items@[i]@,
                    decreases items@.len() - j,
                {
                    proof {
                        assert((*self)->List_0 == *items);
                        assert(decreases_to!(*self => *items));
                        assert(decreases_to!(*items => items@));
                        assert(decreases_to!(items@ => items@[j as int]));
                        assert(decreases_to!(*self => items@[j as int]));
                    }
                    let d = items[j].duplicate();
                    out.push(d);
                    j += 1;
                }
                proof {
                    lemma_views_of(out@);
                    lemma_views_of(items@);
                    assert(views_of(out@) =~= views_of(items@));
                }
                RawValue::List(out)
            },
            RawValue::Dict(entries) => {
                let mut out: Vec<(String, RawValue)> = Vec::new();
                let mut j: usize = 0;
                while j < entries.len()
                    invariant
                        j <= entries@.len(),
                        *self == RawValue::Dict(*entries),
                        out@.len() == j,
                        forall|i: int|
                            0 <= i < j ==> out@[i].0@ == entries@[i].0@ && out@[i].1@
                                == entries@[i].1@,
                    decreases entries@.len() - j,
                {
                    proof {
                        assert((*self)->Dict_0 == *entries);
                        assert(decreases_to!(*self => *entries));
                        assert(decreases_to!(*entries => entries@));
                        assert(decreases_to!(entries@ => entries@[j as int]));
                        assert(decreases_to!(entries@[j as int] => entries@[j as int].1));
                        assert(decreases_to!(*self => entries@[j as int].1));
                    }
                    let d = entries[j].1.duplicate();
                    let name = entries[j].0.clone();
                    out.push((name, d));
                    j += 1;
                }
                proof {
                    lemma_entries_view(out@);
                    lemma_entries_view(entries@);
                    assert(entries_view(out@) =~= entries_view(entries@));
                }
                RawValue::Dict(out)
            },
        }
    }
}

/// The model of a list is elementwise the model of its elements.
pub proof fn lemma_views_of(items: Seq<RawValue>)
    ensures
        views_of(items).len() == items.len(),
        forall|i: int| 0 <= i < items.len() ==> views_of(items)[i] == items[i]@,
    decreases items.len(),
{
    if items.len() > 0 {
        lemma_views_of(items.drop_first());
        assert(views_of(items) == seq![items[0]@] + views_of(items.drop_first()));
    }
}

/// The model of a mapping is entrywise the model of its entries.
pub proof fn lemma_entries_view(entries: Seq<(String, RawValue)>)
    ensures
        entries_view(entries).len() == entries.len(),
        forall|i: int| 0 <= i < entries.len()
            ==> entries_view(entries)[i] == (entries[i].0@, entries[i].1@),
    decreases entries.len(),
{
    if entries.len() > 0 {
        lemma_entries_view(entries.drop_first());
        assert(entries_view(entries)
            == seq![(entries[0].0@, entries[0].1@)] + entries_view(entries.drop_first()));
    }
}

} // verus!
