use vstd::prelude::*;
use crate::array::{Array, DynamicArray};
use crate::reflect::{
    applied, compatible, elems_compatible, elems_eq, lemma_view_seq, partial_eq, patched, view_seq,
    Reflect, ShapeMismatch, Value, ValueView, DYNAMIC_LIST_TYPE_ID,
};

verus! {

/// An ordered sequence of reflected values that can grow at its end.
pub trait List: Array {
    /// Appends `value` as the new last element.
    fn push(&mut self, value: Value)
        ensures
            final(self).elements() == old(self).elements().push(value),
            final(self).type_key() == old(self).type_key(),
            final(self).label() == old(self).label(),
    ;

    /// A deep copy into a [`DynamicList`] that carries this value's type name.
    fn clone_dynamic_list(&self) -> (r: DynamicList)
        ensures
            r.name@ == self.label(),
            view_seq(r.values@) == view_seq(self.elements()),
    {
        let a = self.clone_dynamic_array();
        DynamicList { name: a.name, values: a.values }
    }
}

/// The view of a list: its type name and the views of its elements.
pub open spec fn list_view<L: List>(list: &L) -> ValueView {
    ValueView::List(list.label(), view_seq(list.elements()))
}

/// Applies the list `b` to `a`: shared positions are patched in place and
/// the elements of `b` past the end of `a` are appended as copies; `a` never
/// shrinks. Where `b` is no list, or one of its elements does not fit, `a` is
/// left as it was.
pub fn list_apply<L: List>(a: &mut L, b: &Value) -> (r: Result<(), ShapeMismatch>)
    ensures
        compatible(list_view(old(a)), b.view()) ==> r is Ok && list_view(final(a)) == applied(
            list_view(old(a)),
            b.view(),
        ),
        !compatible(list_view(old(a)), b.view()) ==> r is Err && *final(a) == *old(a),
        final(a).type_key() == old(a).type_key(),
{
    let ghost x = view_seq(a.elements());
    let ghost a0 = a.elements();
    proof {
        lemma_view_seq(a.elements());
        b.lemma_view();
    }
    let src = match b {
        Value::List(src) => src,
        _ => {
            return Err(ShapeMismatch);
        },
    };
    let ghost y = view_seq(src.values@);
    let m = a.len();
    let n = src.values.len();
    let k = if m < n { m } else { n };
    let mut i: usize = 0;
    while i < k
        invariant
            m == a.elements().len(),
            n == src.values@.len(),
            k <= m,
            k <= n,
            k == m || k == n,
            i <= k,
            x == view_seq(a.elements()),
            x.len() == m,
            y.len() == n,
            forall|j: int| 0 <= j < m ==> #[trigger] x[j] == a.elements()[j].view(),
            forall|j: int| 0 <= j < n ==> #[trigger] y[j] == src.values@[j].view(),
            forall|j: int| 0 <= j < i ==> compatible(#[trigger] x[j], y[j]),
            b.view() == ValueView::List(src.name@, y),
            *a == *old(a),
        decreases k - i,
    {
        if !a.get(i).unwrap().can_apply(&src.values[i]) {
            proof {
                assert(!compatible(x[i as int], y[i as int]));
                assert(!elems_compatible(x, y));
            }
            return Err(ShapeMismatch);
        }
        i += 1;
    }
    assert(compatible(list_view(a), b.view()));
    let mut i: usize = 0;
    while i < n
        invariant
            m == a0.len(),
            n == src.values@.len(),
            i <= n,
            x.len() == m,
            y.len() == n,
            forall|j: int| 0 <= j < m ==> #[trigger] x[j] == a0[j].view(),
            forall|j: int| 0 <= j < n ==> #[trigger] y[j] == src.values@[j].view(),
            elems_compatible(x, y),
            a.elements().len() == if i <= m { m as nat } else { i as nat },
            forall|j: int|
                0 <= j < i && j < a.elements().len() ==> #[trigger] a.elements()[j].view()
                    == patched(x, y)[j],
            forall|j: int| i <= j < m ==> #[trigger] a.elements()[j] == a0[j],
            a.type_key() == old(a).type_key(),
            a.label() == old(a).label(),
            a0 == old(a).elements(),
            x == view_seq(a0),
            b.view() == ValueView::List(src.name@, y),
        decreases n - i,
    {
        if i < m {
            let mut e = a.replace(i, Value::Bool(false));
            proof {
                assert(compatible(x[i as int], y[i as int]));
            }
            e.apply_compatible(&src.values[i]);
            a.replace(i, e);
        } else {
            let c = src.values[i].clone_value();
            a.push(c);
        }
        i += 1;
    }
    proof {
        lemma_view_seq(a.elements());
        assert(view_seq(a.elements()) =~= patched(x, y));
    }
    Ok(())
}

/// Structural partial equality of a list with any value: `Some(true)` only
/// for a list of the same length whose elements all compare as equal, and
/// `Some(false)` otherwise, never `None`.
pub fn list_partial_eq<L: List>(a: &L, b: &Value) -> (r: Option<bool>)
    ensures
        r == partial_eq(list_view(a), b.view()),
        !(b is List) ==> r == Some(false),
        (match b {
            Value::List(l) => l.values@.len() != a.elements().len(),
            _ => false,
        }) ==> r == Some(false),
{
    proof {
        lemma_view_seq(a.elements());
        b.lemma_view();
    }
    let list = match b {
        Value::List(list) => list,
        _ => {
            return Some(false);
        },
    };
    let n = a.len();
    if n != list.values.len() {
        return Some(false);
    }
    let ghost x = view_seq(a.elements());
    let ghost y = view_seq(list.values@);
    let mut i: usize = 0;
    while i < n
        invariant
            n == a.elements().len(),
            n == list.values@.len(),
            i <= n,
            x == view_seq(a.elements()),
            y == view_seq(list.values@),
            x.len() == n,
            y.len() == n,
            forall|j: int| 0 <= j < n ==> #[trigger] x[j] == a.elements()[j].view(),
            forall|j: int| 0 <= j < n ==> #[trigger] y[j] == list.values@[j].view(),
            forall|j: int| 0 <= j < i ==> partial_eq(#[trigger] x[j], y[j]) == Some(true),
            b.view() == ValueView::List(list.name@, y),
        decreases n - i,
    {
        match a.get(i).unwrap().reflect_partial_eq(&list.values[i]) {
            Some(true) => {},
            _ => {
                assert(partial_eq(x[i as int], y[i as int]) != Some(true));
                assert(!elems_eq(x, y));
                return Some(false);
            },
        }
        i += 1;
    }
    Some(true)
}

/// A list built at run time.
#[derive(Debug, PartialEq)]
pub struct DynamicList {
    /// The type name it reports; it takes no part in comparison or hashing.
    pub name: String,
    pub values: Vec<Value>,
}

impl Default for DynamicList {
    fn default() -> (r: Self)
        ensures
            r.name@ == Seq::<char>::empty(),
            r.values@ == Seq::<Value>::empty(),
    {
        DynamicList { name: String::new(), values: Vec::new() }
    }
}

impl DynamicList {
    pub fn name(&self) -> (r: &str)
        ensures
            r@ == self.name@,
    {
        self.name.as_str()
    }

    pub fn set_name(&mut self, name: String)
        ensures
            final(self).name == name,
            final(self).values == old(self).values,
    {
        self.name = name;
    }

    /// Appends any value that can be stored as a [`Value`].
    pub fn push<T: Reflect>(&mut self, value: T)
        ensures
            final(self).name == old(self).name,
            final(self).values@.len() == old(self).values@.len() + 1,
            final(self).values@.subrange(0, old(self).values@.len() as int) == old(self).values@,
            final(self).values@.last().view() == value.reflected(),
    {
        let v = value.into_value();
        self.values.push(v);
        proof {
            assert(self.values@.subrange(0, old(self).values@.len() as int) =~= old(self).values@);
        }
    }

    /// Appends a boxed value.
    pub fn push_box(&mut self, value: Box<Value>)
        ensures
            final(self).name == old(self).name,
            final(self).values@ == old(self).values@.push(*value),
    {
        self.values.push(*value);
    }

    /// Applies `value`; see [`list_apply`].
    pub fn apply(&mut self, value: &Value) -> (r: Result<(), ShapeMismatch>)
        ensures
            compatible(list_view(old(self)), value.view()) ==> r is Ok && list_view(final(self))
                == applied(list_view(old(self)), value.view()),
            !compatible(list_view(old(self)), value.view()) ==> r is Err && *final(self) == *old(
                self,
            ),
    {
        list_apply(self, value)
    }

    /// Replaces this list with `value`, which must itself be a dynamic list;
    /// any other value is handed back and nothing changes.
    pub fn set(&mut self, value: Value) -> (r: Result<(), Value>)
        ensures
            match value {
                Value::List(l) => r is Ok && *final(self) == l,
                _ => r == Err::<(), Value>(value) && *final(self) == *old(self),
            },
    {
        match value {
            Value::List(l) => {
                *self = l;
                Ok(())
            },
            _ => Err(value),
        }
    }

    /// A deep copy, as a value.
    pub fn clone_value(&self) -> (r: Value)
        ensures
            r.view() == list_view(self),
    {
        Value::List(self.clone_dynamic_list())
    }

    /// Whether the value offers a serializable view: the encoding of a list is left to the serialization layer.
    pub fn serializable(&self) -> (r: bool)
        ensures
            r == true,
    {
        true
    }

    pub fn reflect_hash(&self) -> (r: Option<u64>)
        ensures
            r == crate::array::array_hash_of(self),
    {
        crate::array::array_hash(self)
    }

    pub fn reflect_partial_eq(&self, value: &Value) -> (r: Option<bool>)
        ensures
            r == partial_eq(list_view(self), value.view()),
    {
        list_partial_eq(self, value)
    }
}

impl Reflect for DynamicList {
    open spec fn reflected(&self) -> ValueView {
        list_view(self)
    }

    fn into_value(self) -> (r: Value) {
        Value::List(self)
    }
}

impl Array for DynamicList {
    open spec fn elements(&self) -> Seq<Value> {
        self.values@
    }

    open spec fn type_key(&self) -> u64 {
        DYNAMIC_LIST_TYPE_ID
    }

    open spec fn label(&self) -> Seq<char> {
        self.name@
    }

    fn type_id(&self) -> (r: u64) {
        DYNAMIC_LIST_TYPE_ID
    }

    fn type_label(&self) -> (r: &str) {
        self.name.as_str()
    }

    fn get(&self, index: usize) -> (r: Option<&Value>) {
        if index < self.values.len() {
            Some(&self.values[index])
        } else {
            None
        }
    }

    fn replace(&mut self, index: usize, value: Value) -> (r: Value) {
        let mut value = value;
        self.values.set_and_swap(index, &mut value);
        value
    }

    fn len(&self) -> (r: usize) {
        self.values.len()
    }
}

impl List for DynamicList {
    fn push(&mut self, value: Value) {
        self.values.push(value);
    }
}

} // verus!
