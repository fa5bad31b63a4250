use vstd::prelude::*;
use crate::reflect::{
    applied, comparable, compatible, hash_elems, lemma_partial_eq_reflexive, hash_start, lemma_hash_elems_empty, lemma_hash_elems_none,
    lemma_hash_elems_step, lemma_view_seq, lemma_view_seq_ext, mix_words, partial_eq, view_seq,
    Reflect, ShapeMismatch, Value, ValueView, DYNAMIC_ARRAY_TYPE_ID, HASH_SEED,
};

verus! {

/// An ordered, fixed-length, mutable sequence of reflected values.
pub trait Array: Sized {
    /// The elements, in index order.
    spec fn elements(&self) -> Seq<Value>;

    /// The runtime identity of the implementing type.
    spec fn type_key(&self) -> u64;

    /// The type name that the value reports.
    spec fn label(&self) -> Seq<char>;

    fn type_id(&self) -> (r: u64)
        ensures
            r == self.type_key(),
    ;

    fn type_label(&self) -> (r: &str)
        ensures
            r@ == self.label(),
    ;

    fn get(&self, index: usize) -> (r: Option<&Value>)
        ensures
            index < self.elements().len() ==> r == Some(&self.elements()[index as int]),
            index >= self.elements().len() ==> r is None,
    ;

    /// Puts `value` at `index` and hands back the element that stood there.
    fn replace(&mut self, index: usize, value: Value) -> (r: Value)
        requires
            index < old(self).elements().len(),
        ensures
            final(self).elements() == old(self).elements().update(index as int, value),
            r == old(self).elements()[index as int],
            final(self).type_key() == old(self).type_key(),
            final(self).label() == old(self).label(),
    ;

    fn len(&self) -> (r: usize)
        ensures
            r == self.elements().len(),
    ;

    fn is_empty(&self) -> (r: bool)
        ensures
            r == (self.elements().len() == 0),
    {
        self.len() == 0
    }

    /// A fresh traversal from the first element.
    fn iter(&self) -> (r: ArrayIter<'_, Self>)
        ensures
            r.array == self,
            r.index == 0,
    {
        ArrayIter { array: self, index: 0 }
    }

    /// A deep copy into a [`DynamicArray`] that carries this value's type name.
    fn clone_dynamic_array(&self) -> (r: DynamicArray)
        ensures
            r.name@ == self.label(),
            view_seq(r.values@) == view_seq(self.elements()),
    {
        let mut values: Vec<Value> = Vec::new();
        let n = self.len();
        let mut i: usize = 0;
        while i < n
            invariant
                n == self.elements().len(),
                i <= n,
                values@.len() == i,
                forall|j: int| 0 <= j < i ==> #[trigger] values@[j].view() == self.elements()[j].view(),
            decreases n - i,
        {
            let c = self.get(i).unwrap().clone_value();
            values.push(c);
            i += 1;
        }
        proof {
            lemma_view_seq_ext(values@, self.elements());
        }
        DynamicArray { name: self.type_label().to_string(), values }
    }
}

/// The view of an array: its type name and the views of its elements.
pub open spec fn array_view<A: Array>(array: &A) -> ValueView {
    ValueView::Array(array.label(), view_seq(array.elements()))
}

/// What [`array_hash`] returns for `array`.
pub open spec fn array_hash_of<A: Array>(array: &A) -> Option<u64> {
    hash_elems(hash_start(array.type_key(), array.elements().len()), view_seq(array.elements()))
}

/// A traversal of an array's elements in index order.
pub struct ArrayIter<'a, A: Array> {
    pub array: &'a A,
    pub index: usize,
}

impl<'a, A: Array> ArrayIter<'a, A> {
    /// The element at the current position, moving past it; `None` at the end.
    pub fn next(&mut self) -> (r: Option<&'a Value>)
        ensures
            final(self).array == old(self).array,
            old(self).index < old(self).array.elements().len() ==> r == Some(
                &old(self).array.elements()[old(self).index as int],
            ) && final(self).index == old(self).index + 1,
            old(self).index >= old(self).array.elements().len() ==> r is None && final(self).index
                == old(self).index,
    {
        if self.index < self.array.len() {
            let value = self.array.get(self.index);
            self.index = self.index + 1;
            value
        } else {
            None
        }
    }

    /// Bounds on the number of elements: the array's length, both ways.
    pub fn size_hint(&self) -> (r: (usize, Option<usize>))
        ensures
            r.0 == self.array.elements().len(),
            r.1 == Some(self.array.elements().len() as usize),
    {
        let size = self.array.len();
        (size, Some(size))
    }
}

/// Structural hash of an array: its type identity and length, then the
/// hash of each element in order; `None` if an element has no hash.
pub fn array_hash<A: Array>(array: &A) -> (r: Option<u64>)
    ensures
        r == array_hash_of(array),
{
    let n = array.len();
    let mut h = mix_words(mix_words(HASH_SEED, array.type_id()), n as u64);
    let ghost h0 = h;
    let ghost vs = view_seq(array.elements());
    proof {
        lemma_view_seq(array.elements());
        lemma_hash_elems_empty(h0, vs);
    }
    let mut i: usize = 0;
    while i < n
        invariant
            n == array.elements().len(),
            i <= n,
            h0 == hash_start(array.type_key(), n as nat),
            vs == view_seq(array.elements()),
            vs.len() == n,
            forall|j: int| 0 <= j < n ==> #[trigger] vs[j] == array.elements()[j].view(),
            hash_elems(h0, vs.subrange(0, i as int)) == Some(h),
        decreases n - i,
    {
        let v = array.get(i).unwrap();
        proof {
            lemma_hash_elems_step(h0, vs, i as int);
        }
        match v.reflect_hash() {
            Some(x) => {
                h = mix_words(h, x);
            },
            None => {
                proof {
                    lemma_hash_elems_none(h0, vs, i + 1);
                }
                return None;
            },
        }
        i += 1;
    }
    proof {
        assert(vs.subrange(0, n as int) =~= vs);
    }
    Some(h)
}

/// Applies `reflect` to `array` element by element. It must be an array of
/// the same length whose elements fit; otherwise `array` is left as it was.
pub fn array_apply<A: Array>(array: &mut A, reflect: &Value) -> (r: Result<(), ShapeMismatch>)
    ensures
        compatible(array_view(old(array)), reflect.view()) ==> r is Ok && array_view(final(array))
            == applied(array_view(old(array)), reflect.view()),
        !compatible(array_view(old(array)), reflect.view()) ==> r is Err && *final(array) == *old(
            array,
        ),
        (match reflect {
            Value::Array(b) => b.values@.len() != old(array).elements().len(),
            _ => true,
        }) ==> r is Err && *final(array) == *old(array),
        final(array).type_key() == old(array).type_key(),
{
    let ghost a = view_seq(array.elements());
    let ghost a0 = array.elements();
    proof {
        lemma_view_seq(array.elements());
        reflect.lemma_view();
    }
    let src = match reflect {
        Value::Array(src) => src,
        _ => {
            return Err(ShapeMismatch);
        },
    };
    let ghost b = view_seq(src.values@);
    let n = array.len();
    if n != src.values.len() {
        return Err(ShapeMismatch);
    }
    let mut i: usize = 0;
    while i < n
        invariant
            n == array.elements().len(),
            n == src.values@.len(),
            i <= n,
            a == view_seq(array.elements()),
            a.len() == n,
            b.len() == n,
            forall|j: int| 0 <= j < n ==> #[trigger] a[j] == array.elements()[j].view(),
            forall|j: int| 0 <= j < n ==> #[trigger] b[j] == src.values@[j].view(),
            forall|j: int| 0 <= j < i ==> compatible(#[trigger] a[j], b[j]),
            reflect.view() == ValueView::Array(src.name@, b),
            *array == *old(array),
        decreases n - i,
    {
        if !array.get(i).unwrap().can_apply(&src.values[i]) {
            proof {
                assert(!compatible(a[i as int], b[i as int]));
                assert(!crate::reflect::elems_compatible(a, b));
            }
            return Err(ShapeMismatch);
        }
        i += 1;
    }
    assert(compatible(array_view(array), reflect.view()));
    let mut i: usize = 0;
    while i < n
        invariant
            n == array.elements().len(),
            n == src.values@.len(),
            n == a0.len(),
            i <= n,
            a.len() == n,
            b.len() == n,
            forall|j: int| 0 <= j < n ==> #[trigger] a[j] == a0[j].view(),
            forall|j: int| 0 <= j < n ==> #[trigger] b[j] == src.values@[j].view(),
            forall|j: int| 0 <= j < n ==> compatible(#[trigger] a[j], b[j]),
            forall|j: int| 0 <= j < i ==> #[trigger] array.elements()[j].view() == applied(a[j], b[j]),
            forall|j: int| i <= j < n ==> #[trigger] array.elements()[j] == a0[j],
            array.type_key() == old(array).type_key(),
            array.label() == old(array).label(),
            a0 == old(array).elements(),
            a == view_seq(a0),
            reflect.view() == ValueView::Array(src.name@, b),
        decreases n - i,
    {
        let mut e = array.replace(i, Value::Bool(false));
        e.apply_compatible(&src.values[i]);
        array.replace(i, e);
        i += 1;
    }
    proof {
        lemma_view_seq(array.elements());
        assert(view_seq(array.elements()) =~= crate::reflect::patched(a, b));
    }
    Ok(())
}

/// Structural partial equality of an array with any value: `Some(true)` only
/// for an array of the same length whose elements all compare as equal, and
/// `Some(false)` otherwise, never `None`.
pub fn array_partial_eq<A: Array>(array: &A, reflect: &Value) -> (r: Option<bool>)
    ensures
        r == partial_eq(array_view(array), reflect.view()),
        !(reflect is Array) ==> r == Some(false),
        (match reflect {
            Value::Array(b) => b.values@.len() != array.elements().len(),
            _ => false,
        }) ==> r == Some(false),
{
    proof {
        lemma_view_seq(array.elements());
        reflect.lemma_view();
    }
    let src = match reflect {
        Value::Array(src) => src,
        _ => {
            return Some(false);
        },
    };
    let n = array.len();
    if n != src.values.len() {
        return Some(false);
    }
    let ghost a = view_seq(array.elements());
    let ghost b = view_seq(src.values@);
    let mut i: usize = 0;
    while i < n
        invariant
            n == array.elements().len(),
            n == src.values@.len(),
            i <= n,
            a == view_seq(array.elements()),
            b == view_seq(src.values@),
            a.len() == n,
            b.len() == n,
            forall|j: int| 0 <= j < n ==> #[trigger] a[j] == array.elements()[j].view(),
            forall|j: int| 0 <= j < n ==> #[trigger] b[j] == src.values@[j].view(),
            forall|j: int| 0 <= j < i ==> partial_eq(#[trigger] a[j], b[j]) == Some(true),
            reflect.view() == ValueView::Array(src.name@, b),
        decreases n - i,
    {
        match array.get(i).unwrap().reflect_partial_eq(&src.values[i]) {
            Some(true) => {},
            _ => {
                assert(partial_eq(a[i as int], b[i as int]) != Some(true));
                assert(!crate::reflect::elems_eq(a, b));
                return Some(false);
            },
        }
        i += 1;
    }
    Some(true)
}

/// An array compares as equal to a dynamic array with the same element
/// views, where nothing opaque stands among them.
pub proof fn lemma_array_partial_eq_equal<A: Array>(array: &A, other: &DynamicArray)
    requires
        view_seq(other.values@) == view_seq(array.elements()),
        forall|i: int|
            0 <= i < array.elements().len() ==> comparable(#[trigger] view_seq(array.elements())[i]),
    ensures
        partial_eq(array_view(array), Value::Array(*other).view()) == Some(true),
{
    let a = view_seq(array.elements());
    lemma_view_seq(array.elements());
    assert forall|i: int| 0 <= i < a.len() implies partial_eq(#[trigger] a[i], a[i]) == Some(true) by {
        lemma_partial_eq_reflexive(a[i]);
    }
}

/// The copy that [`Array::clone_dynamic_array`] makes of a dynamic array has
/// the same hash: both hash the same type identity, length and elements.
pub proof fn lemma_hash_of_clone<A: Array>(array: &A, copy: &DynamicArray)
    requires
        array.type_key() == DYNAMIC_ARRAY_TYPE_ID,
        view_seq(copy.values@) == view_seq(array.elements()),
    ensures
        array_hash_of(copy) == array_hash_of(array),
{
    lemma_view_seq(copy.values@);
    lemma_view_seq(array.elements());
}

/// An array built at run time from a sequence of values.
#[derive(Debug, PartialEq)]
pub struct DynamicArray {
    /// The type name it reports; it takes no part in comparison or hashing.
    pub name: String,
    pub values: Vec<Value>,
}

impl DynamicArray {
    pub fn new(values: Vec<Value>) -> (r: Self)
        ensures
            r.name@ == Seq::<char>::empty(),
            r.values@ == values@,
    {
        DynamicArray { name: String::new(), values }
    }

    pub fn name(&self) -> (r: &str)
        ensures
            r@ == self.name@,
    {
        self.name.as_str()
    }

    pub fn set_name(&mut self, name: String)
        ensures
            final(self).name == name,
            final(self).values == old(self).values,
    {
        self.name = name;
    }

    /// Applies `value` element by element; see [`array_apply`].
    pub fn apply(&mut self, value: &Value) -> (r: Result<(), ShapeMismatch>)
        ensures
            compatible(array_view(old(self)), value.view()) ==> r is Ok && array_view(final(self))
                == applied(array_view(old(self)), value.view()),
            !compatible(array_view(old(self)), value.view()) ==> r is Err && *final(self) == *old(
                self,
            ),
    {
        array_apply(self, value)
    }

    /// Replaces this array with `value`, which must itself be a dynamic
    /// array; any other value is handed back and nothing changes.
    pub fn set(&mut self, value: Value) -> (r: Result<(), Value>)
        ensures
            match value {
                Value::Array(a) => r is Ok && *final(self) == a,
                _ => r == Err::<(), Value>(value) && *final(self) == *old(self),
            },
    {
        match value {
            Value::Array(a) => {
                *self = a;
                Ok(())
            },
            _ => Err(value),
        }
    }

    /// A deep copy, as a value.
    pub fn clone_value(&self) -> (r: Value)
        ensures
            r.view() == array_view(self),
    {
        Value::Array(self.clone_dynamic_array())
    }

    /// Whether the value offers a serializable view: no encoding is defined for a dynamic array.
    pub fn serializable(&self) -> (r: bool)
        ensures
            r == false,
    {
        false
    }

    pub fn reflect_hash(&self) -> (r: Option<u64>)
        ensures
            r == array_hash_of(self),
    {
        array_hash(self)
    }

    pub fn reflect_partial_eq(&self, value: &Value) -> (r: Option<bool>)
        ensures
            r == partial_eq(array_view(self), value.view()),
    {
        array_partial_eq(self, value)
    }
}

impl Reflect for DynamicArray {
    open spec fn reflected(&self) -> ValueView {
        array_view(self)
    }

    fn into_value(self) -> (r: Value) {
        Value::Array(self)
    }
}

impl Array for DynamicArray {
    open spec fn elements(&self) -> Seq<Value> {
        self.values@
    }

    open spec fn type_key(&self) -> u64 {
        DYNAMIC_ARRAY_TYPE_ID
    }

    open spec fn label(&self) -> Seq<char> {
        self.name@
    }

    fn type_id(&self) -> (r: u64) {
        DYNAMIC_ARRAY_TYPE_ID
    }

    fn type_label(&self) -> (r: &str) {
        self.name.as_str()
    }

    fn get(&self, index: usize) -> (r: Option<&Value>) {
        if index < self.values.len() {
            Some(&self.values[index])
        } else {
            None
        }
    }

    fn replace(&mut self, index: usize, value: Value) -> (r: Value) {
        let mut value = value;
        self.values.set_and_swap(index, &mut value);
        value
    }

    fn len(&self) -> (r: usize) {
        self.values.len()
    }
}

} // verus!
