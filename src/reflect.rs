use vstd::prelude::*;
use crate::array::DynamicArray;
use crate::list::DynamicList;

verus! {

/// Starting state of every structural hash.
pub const HASH_SEED: u64 = 0xcbf2_9ce4_8422_2325;

/// Multiplier that folds one word into a hash state.
pub const HASH_PRIME: u64 = 0x100_0000_01b3;

/// Runtime identity of `bool` values.
pub const BOOL_TYPE_ID: u64 = 0x6b6f_6f62;

/// Runtime identity of `i64` values.
pub const INT_TYPE_ID: u64 = 0x3436_69;

/// Runtime identity of [`DynamicArray`].
pub const DYNAMIC_ARRAY_TYPE_ID: u64 = 0x7961_7272_61;

/// Runtime identity of [`DynamicList`].
pub const DYNAMIC_LIST_TYPE_ID: u64 = 0x7473_696c;

/// A value whose concrete type is known only at run time.
#[derive(Debug, PartialEq)]
pub enum Value {
    Bool(bool),
    Int(i64),
    /// A value of a type that registers neither hashing nor comparison;
    /// it is carried, cloned and replaced as a whole.
    Opaque(u64),
    Array(DynamicArray),
    List(DynamicList),
}

/// A value that can be stored as a [`Value`].
pub trait Reflect: Sized {
    /// The view of the stored value.
    spec fn reflected(&self) -> ValueView;

    fn into_value(self) -> (r: Value)
        ensures
            r.view() == self.reflected(),
    ;
}

impl Reflect for bool {
    open spec fn reflected(&self) -> ValueView {
        ValueView::Bool(*self)
    }

    fn into_value(self) -> (r: Value) {
        Value::Bool(self)
    }
}

impl Reflect for i64 {
    open spec fn reflected(&self) -> ValueView {
        ValueView::Int(*self)
    }

    fn into_value(self) -> (r: Value) {
        Value::Int(self)
    }
}

impl Reflect for Value {
    open spec fn reflected(&self) -> ValueView {
        self.view()
    }

    fn into_value(self) -> (r: Value) {
        self
    }
}

/// Returned when a value is applied to one of another shape; the target is
/// left as it was.
#[derive(Debug, PartialEq, Eq, Structural)]
pub struct ShapeMismatch;

/// What a reflected value is, as a mathematical value: the payload of a
/// scalar, or the label and the elements of a container.
pub enum ValueView {
    Bool(bool),
    Int(i64),
    Opaque(u64),
    Array(Seq<char>, Seq<ValueView>),
    List(Seq<char>, Seq<ValueView>),
}

/// Structural partial equality: `None` where a scalar cannot be compared;
/// a container compares its elements and is never `None`.
pub open spec fn partial_eq(a: ValueView, b: ValueView) -> Option<bool>
    decreases a, 1nat,
{
    match a {
        ValueView::Bool(x) => Some(b == ValueView::Bool(x)),
        ValueView::Int(x) => Some(b == ValueView::Int(x)),
        ValueView::Opaque(_) => None,
        ValueView::Array(_, s) => Some(
            match b {
                ValueView::Array(_, t) => elems_eq(s, t),
                _ => false,
            },
        ),
        ValueView::List(_, s) => Some(
            match b {
                ValueView::List(_, t) => elems_eq(s, t),
                _ => false,
            },
        ),
    }
}

/// Equal lengths, and each pair of elements compares as equal.
pub open spec fn elems_eq(s: Seq<ValueView>, t: Seq<ValueView>) -> bool
    decreases s, 0nat,
{
    s.len() == t.len() && forall|i: int|
        0 <= i < s.len() ==> partial_eq(#[trigger] s[i], t[i]) == Some(true)
}

/// Whether `src` can be applied to `dst`: the same kind, and for an array
/// the same length, all the way down.
pub open spec fn compatible(dst: ValueView, src: ValueView) -> bool
    decreases dst, 1nat,
{
    match dst {
        ValueView::Bool(_) => src is Bool,
        ValueView::Int(_) => src is Int,
        ValueView::Opaque(_) => src is Opaque,
        ValueView::Array(_, a) => match src {
            ValueView::Array(_, b) => a.len() == b.len() && elems_compatible(a, b),
            _ => false,
        },
        ValueView::List(_, a) => match src {
            ValueView::List(_, b) => elems_compatible(a, b),
            _ => false,
        },
    }
}

/// Each element of `b` that has a counterpart in `a` can be applied to it.
pub open spec fn elems_compatible(a: Seq<ValueView>, b: Seq<ValueView>) -> bool
    decreases a, 0nat,
{
    forall|i: int| 0 <= i < a.len() && i < b.len() ==> compatible(#[trigger] a[i], b[i])
}

/// The value that `dst` becomes when `src` is applied to it: scalars are
/// replaced, containers keep their label and have their elements patched.
pub open spec fn applied(dst: ValueView, src: ValueView) -> ValueView
    decreases dst, 1nat,
{
    match dst {
        ValueView::Array(n, a) => match src {
            ValueView::Array(_, b) => ValueView::Array(n, patched(a, b)),
            _ => dst,
        },
        ValueView::List(n, a) => match src {
            ValueView::List(_, b) => ValueView::List(n, patched(a, b)),
            _ => dst,
        },
        _ => src,
    }
}

/// Elements `a` patched with `b`: where both have an element, `b`'s is applied
/// to `a`'s; past the end of `b`, `a`'s stay; past the end of `a`, `b`'s are
/// appended.
pub open spec fn patched(a: Seq<ValueView>, b: Seq<ValueView>) -> Seq<ValueView>
    decreases a, 0nat,
{
    Seq::new(
        if a.len() < b.len() { b.len() } else { a.len() },
        |i: int|
            if 0 <= i < a.len() && i < b.len() {
                applied(a[i], b[i])
            } else if i < a.len() {
                a[i]
            } else {
                b[i]
            },
    )
}

/// Whether every part of a value can be compared: no opaque value in it.
pub open spec fn comparable(v: ValueView) -> bool
    decreases v,
{
    match v {
        ValueView::Opaque(_) => false,
        ValueView::Array(_, s) => forall|i: int| 0 <= i < s.len() ==> comparable(#[trigger] s[i]),
        ValueView::List(_, s) => forall|i: int| 0 <= i < s.len() ==> comparable(#[trigger] s[i]),
        _ => true,
    }
}

/// A value with nothing opaque in it compares as equal to itself.
pub proof fn lemma_partial_eq_reflexive(v: ValueView)
    requires
        comparable(v),
    ensures
        partial_eq(v, v) == Some(true),
    decreases v,
{
    match v {
        ValueView::Array(_, s) => {
            assert forall|i: int| 0 <= i < s.len() implies partial_eq(#[trigger] s[i], s[i]) == Some(
                true,
            ) by {
                lemma_partial_eq_reflexive(s[i]);
            }
        },
        ValueView::List(_, s) => {
            assert forall|i: int| 0 <= i < s.len() implies partial_eq(#[trigger] s[i], s[i]) == Some(
                true,
            ) by {
                lemma_partial_eq_reflexive(s[i]);
            }
        },
        _ => {},
    }
}

/// Every value can be applied to itself.
pub proof fn lemma_compatible_reflexive(v: ValueView)
    ensures
        compatible(v, v),
    decreases v,
{
    match v {
        ValueView::Array(_, s) => {
            assert forall|i: int| 0 <= i < s.len() && i < s.len() implies compatible(
                #[trigger] s[i],
                s[i],
            ) by {
                lemma_compatible_reflexive(s[i]);
            }
        },
        ValueView::List(_, s) => {
            assert forall|i: int| 0 <= i < s.len() && i < s.len() implies compatible(
                #[trigger] s[i],
                s[i],
            ) by {
                lemma_compatible_reflexive(s[i]);
            }
        },
        _ => {},
    }
}

/// Applying a value to itself changes nothing.
pub proof fn lemma_applied_to_itself(v: ValueView)
    ensures
        applied(v, v) == v,
    decreases v,
{
    match v {
        ValueView::Array(n, s) => {
            assert forall|i: int| 0 <= i < s.len() implies #[trigger] patched(s, s)[i] == s[i] by {
                lemma_applied_to_itself(s[i]);
            }
            assert(patched(s, s) =~= s);
        },
        ValueView::List(n, s) => {
            assert forall|i: int| 0 <= i < s.len() implies #[trigger] patched(s, s)[i] == s[i] by {
                lemma_applied_to_itself(s[i]);
            }
            assert(patched(s, s) =~= s);
        },
        _ => {},
    }
}

/// Applying a source once more to what it was applied to changes nothing:
/// the result still fits the source, and applying it again gives the same
/// value.
pub proof fn lemma_apply_twice(t: ValueView, s: ValueView)
    requires
        compatible(t, s),
    ensures
        compatible(applied(t, s), s),
        applied(applied(t, s), s) == applied(t, s),
    decreases t,
{
    match t {
        ValueView::Array(n, a) => {
            let b = s->Array_1;
            lemma_patched_twice(a, b);
        },
        ValueView::List(n, a) => {
            let b = s->List_1;
            lemma_patched_twice(a, b);
        },
        _ => {
            lemma_compatible_reflexive(s);
            lemma_applied_to_itself(s);
        },
    }
}

/// [`lemma_apply_twice`] on the elements of a container.
pub proof fn lemma_patched_twice(a: Seq<ValueView>, b: Seq<ValueView>)
    requires
        elems_compatible(a, b),
    ensures
        elems_compatible(patched(a, b), b),
        patched(patched(a, b), b) == patched(a, b),
    decreases a, 0nat,
{
    let p = patched(a, b);
    assert forall|i: int| 0 <= i < p.len() && i < b.len() implies compatible(#[trigger] p[i], b[i])
        && applied(p[i], b[i]) == p[i] by {
        if i < a.len() {
            lemma_apply_twice(a[i], b[i]);
        } else {
            lemma_compatible_reflexive(b[i]);
            lemma_applied_to_itself(b[i]);
        }
    }
    assert(patched(p, b) =~= p);
}

/// A list applied with a longer list grows to the source's length, and its
/// new elements are those of the source; it never shrinks.
pub proof fn lemma_list_apply_growth(
    name: Seq<char>,
    a: Seq<ValueView>,
    src_name: Seq<char>,
    b: Seq<ValueView>,
)
    ensures
        applied(ValueView::List(name, a), ValueView::List(src_name, b)) == ValueView::List(
            name,
            patched(a, b),
        ),
        patched(a, b).len() >= a.len(),
        a.len() < b.len() ==> patched(a, b).len() == b.len(),
        forall|i: int| a.len() <= i < b.len() ==> #[trigger] patched(a, b)[i] == b[i],
        forall|i: int| b.len() <= i < a.len() ==> #[trigger] patched(a, b)[i] == a[i],
{
}

/// Folds the word `x` into the hash state `h`.
#[verifier::opaque]
pub open spec fn mix(h: u64, x: u64) -> u64 {
    ((h as int * HASH_PRIME as int + x as int) % 0x1_0000_0000_0000_0000) as u64
}

/// The two's-complement word of an integer.
pub open spec fn int_word(n: i64) -> u64 {
    if n >= 0 {
        n as u64
    } else {
        (n + 0x1_0000_0000_0000_0000) as u64
    }
}

/// The hash state of a container before its elements are folded in.
pub open spec fn hash_start(type_id: u64, len: nat) -> u64 {
    mix(mix(HASH_SEED, type_id), len as u64)
}

/// Folds the hashes of `s`, in order, into `h`; `None` if one is missing.
pub open spec fn hash_elems(h: u64, s: Seq<ValueView>) -> Option<u64>
    decreases s, 0nat,
{
    if s.len() == 0 {
        Some(h)
    } else {
        let n = s.len() - 1;
        match hash_elems(h, s.subrange(0, n)) {
            Some(g) => match hash(s[n]) {
                Some(x) => Some(mix(g, x)),
                None => None,
            },
            None => None,
        }
    }
}

/// Structural hash of a value; `None` if it or one of its elements has none.
pub open spec fn hash(v: ValueView) -> Option<u64>
    decreases v, 1nat,
{
    match v {
        ValueView::Bool(b) => Some(mix(mix(HASH_SEED, BOOL_TYPE_ID), if b { 1 } else { 0 })),
        ValueView::Int(n) => Some(mix(mix(HASH_SEED, INT_TYPE_ID), int_word(n))),
        ValueView::Opaque(_) => None,
        ValueView::Array(_, s) => hash_elems(hash_start(DYNAMIC_ARRAY_TYPE_ID, s.len()), s),
        ValueView::List(_, s) => hash_elems(hash_start(DYNAMIC_LIST_TYPE_ID, s.len()), s),
    }
}

/// The mathematical values of a sequence of values.
pub open spec fn view_seq(s: Seq<Value>) -> Seq<ValueView>
    decreases s, 0nat,
{
    if s.len() == 0 {
        Seq::empty()
    } else {
        view_seq(s.subrange(0, s.len() - 1)).push(s[s.len() - 1].view())
    }
}

/// The view of a sequence has its length, and at each index the view of
/// the element there.
pub proof fn lemma_view_seq(s: Seq<Value>)
    ensures
        view_seq(s).len() == s.len(),
        forall|i: int| 0 <= i < s.len() ==> #[trigger] view_seq(s)[i] == s[i].view(),
    decreases s.len(),
{
    if s.len() > 0 {
        lemma_view_seq(s.subrange(0, s.len() - 1));
    }
}

/// Sequences of values with the same length and element views have the same view.
pub proof fn lemma_view_seq_ext(s: Seq<Value>, t: Seq<Value>)
    requires
        s.len() == t.len(),
        forall|i: int| 0 <= i < s.len() ==> #[trigger] s[i].view() == t[i].view(),
    ensures
        view_seq(s) == view_seq(t),
{
    lemma_view_seq(s);
    lemma_view_seq(t);
    assert(view_seq(s) =~= view_seq(t));
}

/// `mix` computed without overflow.
pub fn mix_words(h: u64, x: u64) -> (r: u64)
    ensures
        r == mix(h, x),
{
    proof {
        assert(h as int * 0x100_0000_01b3 <= 0xffff_ffff_ffff_ffff * 0x100_0000_01b3) by (nonlinear_arith)
            requires
                h <= 0xffff_ffff_ffff_ffff,
        ;
    }
    reveal(mix);
    let p: u128 = (h as u128) * (HASH_PRIME as u128) + (x as u128);
    (p % 0x1_0000_0000_0000_0000u128) as u64
}


/// Hashing stops for good at the first element without a hash.
pub proof fn lemma_hash_elems_none(h: u64, s: Seq<ValueView>, k: int)
    requires
        0 <= k <= s.len(),
        hash_elems(h, s.subrange(0, k)) is None,
    ensures
        hash_elems(h, s) is None,
    decreases s.len(),
{
    if k == s.len() {
        assert(s.subrange(0, k) =~= s);
    } else {
        let n = s.len() - 1;
        assert(s.subrange(0, n).subrange(0, k) =~= s.subrange(0, k));
        lemma_hash_elems_none(h, s.subrange(0, n), k);
    }
}

/// One more element folded into a hash.
pub proof fn lemma_hash_elems_step(h: u64, s: Seq<ValueView>, i: int)
    requires
        0 <= i < s.len(),
    ensures
        hash_elems(h, s.subrange(0, i + 1)) == match hash_elems(h, s.subrange(0, i)) {
            Some(g) => match hash(s[i]) {
                Some(x) => Some(mix(g, x)),
                None => None,
            },
            None => None,
        },
{
    assert(s.subrange(0, i + 1).subrange(0, i) =~= s.subrange(0, i));
}

/// Hashing no element leaves the state as it was.
pub proof fn lemma_hash_elems_empty(h: u64, s: Seq<ValueView>)
    ensures
        hash_elems(h, s.subrange(0, 0)) == Some(h),
{
}

impl Value {
    /// Lengths and elementwise views of the elements of a container.
    pub proof fn lemma_view(&self)
        ensures
            match self {
                Value::Array(a) => {
                    &&& view_seq(a.values@).len() == a.values@.len()
                    &&& forall|i: int|
                        0 <= i < a.values@.len() ==> #[trigger] view_seq(a.values@)[i]
                            == a.values@[i].view()
                },
                Value::List(l) => {
                    &&& view_seq(l.values@).len() == l.values@.len()
                    &&& forall|i: int|
                        0 <= i < l.values@.len() ==> #[trigger] view_seq(l.values@)[i]
                            == l.values@[i].view()
                },
                _ => true,
            },
    {
        match self {
            Value::Array(a) => lemma_view_seq(a.values@),
            Value::List(l) => lemma_view_seq(l.values@),
            _ => {},
        }
    }

    /// The mathematical value: containers keep their label and the views of
    /// their elements.
    pub open spec fn view(&self) -> ValueView
        decreases self, 1nat,
    {
        match self {
            Value::Bool(b) => ValueView::Bool(*b),
            Value::Int(n) => ValueView::Int(*n),
            Value::Opaque(h) => ValueView::Opaque(*h),
            Value::Array(a) => ValueView::Array(a.name@, view_seq(a.values@)),
            Value::List(l) => ValueView::List(l.name@, view_seq(l.values@)),
        }
    }

    /// Structural hash of the value.
    pub fn reflect_hash(&self) -> (r: Option<u64>)
        ensures
            r == hash(self.view()),
        decreases self,
    {
        proof {
            self.lemma_view();
        }
        match self {
            Value::Bool(b) => Some(
                mix_words(mix_words(HASH_SEED, BOOL_TYPE_ID), if *b { 1 } else { 0 }),
            ),
            Value::Int(n) => {
                let w: u64 = if *n >= 0 {
                    *n as u64
                } else {
                    (*n as i128 + 0x1_0000_0000_0000_0000i128) as u64
                };
                Some(mix_words(mix_words(HASH_SEED, INT_TYPE_ID), w))
            },
            Value::Opaque(_) => None,
            Value::Array(a) => hash_values(DYNAMIC_ARRAY_TYPE_ID, &a.values),
            Value::List(l) => hash_values(DYNAMIC_LIST_TYPE_ID, &l.values),
        }
    }

    /// Structural partial equality with another value.
    pub fn reflect_partial_eq(&self, other: &Value) -> (r: Option<bool>)
        ensures
            r == partial_eq(self.view(), other.view()),
        decreases self,
    {
        match self {
            Value::Bool(x) => match other {
                Value::Bool(y) => Some(*x == *y),
                _ => Some(false),
            },
            Value::Int(x) => match other {
                Value::Int(y) => Some(*x == *y),
                _ => Some(false),
            },
            Value::Opaque(_) => None,
            Value::Array(a) => match other {
                Value::Array(b) => Some(values_eq(&a.values, &b.values)),
                _ => Some(false),
            },
            Value::List(a) => match other {
                Value::List(b) => Some(values_eq(&a.values, &b.values)),
                _ => Some(false),
            },
        }
    }

    /// A deep copy: the same view, containers with their labels.
    pub fn clone_value(&self) -> (r: Value)
        ensures
            r.view() == self.view(),
        decreases self,
    {
        match self {
            Value::Bool(b) => Value::Bool(*b),
            Value::Int(n) => Value::Int(*n),
            Value::Opaque(h) => Value::Opaque(*h),
            Value::Array(a) => Value::Array(
                DynamicArray { name: a.name.clone(), values: clone_values(&a.values) },
            ),
            Value::List(l) => Value::List(
                DynamicList { name: l.name.clone(), values: clone_values(&l.values) },
            ),
        }
    }

    /// Whether `src` can be applied to this value.
    pub fn can_apply(&self, src: &Value) -> (r: bool)
        ensures
            r == compatible(self.view(), src.view()),
        decreases self,
    {
        proof {
            self.lemma_view();
            src.lemma_view();
        }
        match self {
            Value::Bool(_) => matches!(src, Value::Bool(_)),
            Value::Int(_) => matches!(src, Value::Int(_)),
            Value::Opaque(_) => matches!(src, Value::Opaque(_)),
            Value::Array(a) => match src {
                Value::Array(b) => a.values.len() == b.values.len() && values_compatible(
                    &a.values,
                    &b.values,
                ),
                _ => false,
            },
            Value::List(a) => match src {
                Value::List(b) => values_compatible(&a.values, &b.values),
                _ => false,
            },
        }
    }

    /// Applies `src` to this value in place: a scalar is replaced, a
    /// container has its elements patched. Where the shapes differ nothing
    /// changes and the mismatch is reported.
    pub fn apply(&mut self, src: &Value) -> (r: Result<(), ShapeMismatch>)
        ensures
            compatible(old(self).view(), src.view()) ==> r is Ok && final(self).view() == applied(
                old(self).view(),
                src.view(),
            ),
            !compatible(old(self).view(), src.view()) ==> r is Err && *final(self) == *old(self),
    {
        if self.can_apply(src) {
            self.apply_compatible(src);
            Ok(())
        } else {
            Err(ShapeMismatch)
        }
    }

    /// Applies `src`, whose shape is known to fit.
    pub fn apply_compatible(&mut self, src: &Value)
        requires
            compatible(old(self).view(), src.view()),
        ensures
            final(self).view() == applied(old(self).view(), src.view()),
        decreases src,
    {
        let mut cur = Value::Bool(false);
        std::mem::swap(self, &mut cur);
        match src {
            Value::Array(b) => match cur {
                Value::Array(mut a) => {
                    patch_values(&mut a.values, &b.values);
                    *self = Value::Array(a);
                },
                _ => {
                    *self = cur;
                },
            },
            Value::List(b) => match cur {
                Value::List(mut a) => {
                    patch_values(&mut a.values, &b.values);
                    *self = Value::List(a);
                },
                _ => {
                    *self = cur;
                },
            },
            _ => {
                *self = src.clone_value();
            },
        }
    }
}

/// Whether two element vectors compare as equal, element by element.
fn values_eq(s: &Vec<Value>, t: &Vec<Value>) -> (r: bool)
    ensures
        r == elems_eq(view_seq(s@), view_seq(t@)),
    decreases s@,
{
    proof {
        lemma_view_seq(s@);
        lemma_view_seq(t@);
    }
    if s.len() != t.len() {
        return false;
    }
    let n = s.len();
    let mut i: usize = 0;
    while i < n
        invariant
            n == s@.len(),
            n == t@.len(),
            i <= n,
            view_seq(s@).len() == n,
            view_seq(t@).len() == n,
            forall|j: int| 0 <= j < n ==> #[trigger] view_seq(s@)[j] == s@[j].view(),
            forall|j: int| 0 <= j < n ==> #[trigger] view_seq(t@)[j] == t@[j].view(),
            forall|j: int|
                0 <= j < i ==> partial_eq(#[trigger] view_seq(s@)[j], view_seq(t@)[j]) == Some(
                    true,
                ),
        decreases n - i,
    {
        proof {
            vstd::seq::axiom_seq_index_decreases(s@, i as int);
        }
        match s[i].reflect_partial_eq(&t[i]) {
            Some(true) => {},
            _ => {
                proof {
                    assert(partial_eq(view_seq(s@)[i as int], view_seq(t@)[i as int]) != Some(true));
                }
                return false;
            },
        }
        i += 1;
    }
    true
}

/// Deep copies of the elements, in order.
fn clone_values(s: &Vec<Value>) -> (r: Vec<Value>)
    ensures
        view_seq(r@) == view_seq(s@),
    decreases s@,
{
    let mut r: Vec<Value> = Vec::new();
    let n = s.len();
    let mut i: usize = 0;
    while i < n
        invariant
            n == s@.len(),
            i <= n,
            r@.len() == i,
            forall|j: int| 0 <= j < i ==> #[trigger] r@[j].view() == s@[j].view(),
        decreases n - i,
    {
        proof {
            vstd::seq::axiom_seq_index_decreases(s@, i as int);
        }
        let c = s[i].clone_value();
        r.push(c);
        i += 1;
    }
    proof {
        lemma_view_seq_ext(r@, s@);
    }
    r
}

/// Whether each element of `t` with a counterpart in `s` fits it.
fn values_compatible(s: &Vec<Value>, t: &Vec<Value>) -> (r: bool)
    ensures
        r == elems_compatible(view_seq(s@), view_seq(t@)),
    decreases s@,
{
    proof {
        lemma_view_seq(s@);
        lemma_view_seq(t@);
    }
    let n = if s.len() < t.len() { s.len() } else { t.len() };
    let mut i: usize = 0;
    while i < n
        invariant
            n <= s@.len(),
            n <= t@.len(),
            n == s@.len() || n == t@.len(),
            i <= n,
            view_seq(s@).len() == s@.len(),
            view_seq(t@).len() == t@.len(),
            forall|j: int| 0 <= j < s@.len() ==> #[trigger] view_seq(s@)[j] == s@[j].view(),
            forall|j: int| 0 <= j < t@.len() ==> #[trigger] view_seq(t@)[j] == t@[j].view(),
            forall|j: int| 0 <= j < i ==> compatible(#[trigger] view_seq(s@)[j], view_seq(t@)[j]),
        decreases n - i,
    {
        proof {
            vstd::seq::axiom_seq_index_decreases(s@, i as int);
        }
        if !s[i].can_apply(&t[i]) {
            proof {
                assert(!compatible(view_seq(s@)[i as int], view_seq(t@)[i as int]));
            }
            return false;
        }
        i += 1;
    }
    true
}

/// Patches `dst` with `src`: shared positions are applied in place, and the
/// elements of `src` past the end of `dst` are copied onto it.
fn patch_values(dst: &mut Vec<Value>, src: &Vec<Value>)
    requires
        elems_compatible(view_seq(old(dst)@), view_seq(src@)),
    ensures
        view_seq(final(dst)@) == patched(view_seq(old(dst)@), view_seq(src@)),
    decreases src@,
{
    let ghost a = view_seq(dst@);
    let ghost b = view_seq(src@);
    let ghost d0 = dst@;
    proof {
        lemma_view_seq(dst@);
        lemma_view_seq(src@);
    }
    let m = dst.len();
    let n = src.len();
    let mut i: usize = 0;
    while i < n
        invariant
            m == d0.len(),
            n == src@.len(),
            i <= n,
            a == view_seq(d0),
            b == view_seq(src@),
            a.len() == m,
            b.len() == n,
            forall|j: int| 0 <= j < m ==> #[trigger] a[j] == d0[j].view(),
            forall|j: int| 0 <= j < n ==> #[trigger] b[j] == src@[j].view(),
            elems_compatible(a, b),
            dst@.len() == if i <= m { m as nat } else { i as nat },
            forall|j: int|
                0 <= j < i && j < dst@.len() ==> #[trigger] dst@[j].view() == patched(a, b)[j],
            forall|j: int| i <= j < m ==> #[trigger] dst@[j] == d0[j],
        decreases n - i,
    {
        proof {
            vstd::seq::axiom_seq_index_decreases(src@, i as int);
        }
        if i < m {
            let mut e = Value::Bool(false);
            dst.set_and_swap(i, &mut e);
            proof {
                assert(compatible(a[i as int], b[i as int]));
            }
            e.apply_compatible(&src[i]);
            dst.set_and_swap(i, &mut e);
        } else {
            let c = src[i].clone_value();
            dst.push(c);
        }
        i += 1;
    }
    proof {
        lemma_view_seq(dst@);
        assert(view_seq(dst@) =~= patched(a, b));
    }
}

/// Structural hash of a container with the given type identity and elements.
fn hash_values(type_id: u64, values: &Vec<Value>) -> (r: Option<u64>)
    ensures
        r == hash_elems(hash_start(type_id, values@.len()), view_seq(values@)),
    decreases values@,
{
    let n = values.len();
    let mut h = mix_words(mix_words(HASH_SEED, type_id), n as u64);
    let ghost h0 = h;
    let ghost vs = view_seq(values@);
    proof {
        lemma_view_seq(values@);
        lemma_hash_elems_empty(h0, vs);
        assert(h0 == hash_start(type_id, values@.len()));
    }
    let mut i: usize = 0;
    while i < n
        invariant
            n == values@.len(),
            i <= n,
            h0 == hash_start(type_id, n as nat),
            vs == view_seq(values@),
            vs.len() == n,
            forall|j: int| 0 <= j < n ==> #[trigger] vs[j] == values@[j].view(),
            hash_elems(h0, vs.subrange(0, i as int)) == Some(h),
        decreases n - i,
    {
        proof {
            vstd::seq::axiom_seq_index_decreases(values@, i as int);
            lemma_hash_elems_step(h0, vs, i as int);
        }
        match values[i].reflect_hash() {
            Some(x) => {
                h = mix_words(h, x);
            },
            None => {
                proof {
                    lemma_hash_elems_none(h0, vs, i + 1);
                }
                return None;
            },
        }
        i += 1;
    }
    proof {
        assert(vs.subrange(0, n as int) =~= vs);
    }
    Some(h)
}

} // verus!
