//! Generic helpers, a generic wrapper and enum, and a naming trait.
use vstd::prelude::*;

verus! {

/// `param` wrapped in `Some`.
pub fn make_some<T>(param: T) -> (r: Option<T>)
    ensures
        r == Some(param),
{
    Some(param)
}

/// The two values as a pair.
pub fn make_pair<A, B>(a: A, b: B) -> (r: (A, B))
    ensures
        r == (a, b),
{
    (a, b)
}

/// A value held in a struct.
pub struct Value<T> {
    pub val: T,
}

impl<T> Value<T> {
    /// The value held.
    pub fn get(&self) -> (r: &T)
        ensures
            *r == self.val,
    {
        &self.val
    }
}

/// One value, or two.
pub enum OneTwo<A, B> {
    One(A),
    Two(A, B),
}

impl<A, B> OneTwo<A, B> {
    /// The first value, which both variants hold.
    pub fn first(&self) -> (r: &A)
        ensures
            *r == match self {
                OneTwo::One(a) => *a,
                OneTwo::Two(a, _) => *a,
            },
    {
        match self {
            OneTwo::One(a) => a,
            OneTwo::Two(a, _) => a,
        }
    }

    /// The second value, held by `Two` only.
    pub fn second(&self) -> (r: Option<&B>)
        ensures
            r == match self {
                OneTwo::One(_) => None::<&B>,
                OneTwo::Two(_, b) => Some(b),
            },
    {
        match self {
            OneTwo::One(_) => None,
            OneTwo::Two(_, b) => Some(b),
        }
    }
}

/// A clone of `x`.
pub fn clone<T: Clone>(x: &T) -> (r: T)
    ensures
        call_ensures(T::clone, (x,), r),
{
    x.clone()
}

/// `t` converted into the type of `u`; `u` itself is not used.
pub fn cast<T, U>(t: T, u: U) -> (r: U)
    where
        T: Into<U>,
    ensures
        call_ensures(T::into, (t,), r),
{
    t.into()
}

/// Whether `t` equals its type's default value.
pub fn is_default<T: Default + PartialEq>(t: T) -> (r: bool)
    ensures
        exists|d: T| call_ensures(T::default, (), d) && call_ensures(T::eq, (&t, &d), r),
{
    t == Default::default()
}

/// Something with a name.
pub trait Name {
    /// The name, as a spec value.
    spec fn name_of(&self) -> Seq<char>;

    /// The name.
    fn name(&self) -> (r: String)
        ensures
            r@ == self.name_of(),
    ;
}

/// A thing named "Alpha".
pub struct Alpha {}

impl Name for Alpha {
    open spec fn name_of(&self) -> Seq<char> {
        "Alpha"@
    }

    fn name(&self) -> (r: String) {
        String::from_str("Alpha")
    }
}

/// A thing named "Beta".
pub struct Beta {}

impl Name for Beta {
    open spec fn name_of(&self) -> Seq<char> {
        "Beta"@
    }

    fn name(&self) -> (r: String) {
        String::from_str("Beta")
    }
}

/// The names of the items, in order.
pub fn name_vec_impl<N: Name>(vec: Vec<N>) -> (r: Vec<String>)
    ensures
        r@.len() == vec@.len(),
        forall|k: int| 0 <= k < vec@.len() ==> (#[trigger] r@[k])@ == vec@[k].name_of(),
{
    let mut r: Vec<String> = Vec::new();
    let mut k: usize = 0;
    while k < vec.len()
        invariant
            k <= vec@.len(),
            r@.len() == k,
            forall|m: int| 0 <= m < k ==> (#[trigger] r@[m])@ == vec@[m].name_of(),
        decreases vec@.len() - k,
    {
        r.push(vec[k].name());
        k += 1;
    }
    r
}

/// The names of `n` `Alpha`s followed by those of `n` `Beta`s.
pub fn demo_impl(n: usize) -> (r: Vec<String>)
    requires
        2 * n <= usize::MAX,
    ensures
        r@.len() == 2 * n,
        forall|k: int| 0 <= k < n ==> (#[trigger] r@[k])@ == "Alpha"@,
        forall|k: int| n <= k < 2 * n ==> (#[trigger] r@[k])@ == "Beta"@,
{
    let mut vec_alphas: Vec<Alpha> = Vec::new();
    let mut vec_betas: Vec<Beta> = Vec::new();
    let mut k: usize = 0;
    while k < n
        invariant
            k <= n,
            vec_alphas@.len() == k,
            vec_betas@.len() == k,
        decreases n - k,
    {
        vec_alphas.push(Alpha {});
        vec_betas.push(Beta {});
        k += 1;
    }
    let mut names = name_vec_impl(vec_alphas);
    let mut beta_names = name_vec_impl(vec_betas);
    let ghost a = names@;
    let ghost b = beta_names@;
    names.append(&mut beta_names);
    assert(names@ == a + b);
    assert forall|k: int| n <= k < 2 * n implies (#[trigger] names@[k])@ == "Beta"@ by {
        assert(names@[k] == b[k - n]);
    }
    names
}

} // verus!
