//! Interning of article paths: a bijection between strings and dense keys,
//! kept in a `lasso::Rodeo`.

use vstd::prelude::*;

verus! {

#[verifier::external_type_specification]
#[verifier::external_body]
#[verifier::reject_recursive_types(K)]
#[verifier::reject_recursive_types(S)]
pub struct ExRodeo<K, S>(lasso::Rodeo<K, S>);

/// The key type of `lasso::Rodeo`'s default parameters, which every
/// signature naming `lasso::Rodeo` mentions.
#[verifier::external_type_specification]
#[verifier::external_body]
pub struct ExSpur(lasso::Spur);

/// The strings held by a rodeo, in the order of their keys.
pub uninterp spec fn rodeo_strings(r: lasso::Rodeo) -> Seq<Seq<char>>;

/// Relies on `lasso::Rodeo::new`: a new rodeo holds no string.
#[verifier::external_body]
fn rodeo_new() -> (r: lasso::Rodeo)
    ensures
        rodeo_strings(r) == Seq::<Seq<char>>::empty(),
{
    lasso::Rodeo::new()
}

/// Relies on `lasso::Rodeo::get_or_intern`: a string already held keeps its
/// key; a new one is pushed and gets the next key, the number of strings held
/// before. It panics only once the `u32` key space is used up, or where
/// memory runs out.
#[verifier::external_body]
fn rodeo_get_or_intern(r: &mut lasso::Rodeo, s: &str) -> (k: usize)
    requires
        rodeo_strings(*old(r)).len() < u32::MAX,
    ensures
        rodeo_strings(*old(r)).contains(s@) ==> k < rodeo_strings(*old(r)).len()
            && rodeo_strings(*old(r))[k as int] == s@ && rodeo_strings(*final(r))
            == rodeo_strings(*old(r)),
        !rodeo_strings(*old(r)).contains(s@) ==> k == rodeo_strings(*old(r)).len()
            && rodeo_strings(*final(r)) == rodeo_strings(*old(r)).push(s@),
{
    lasso::Key::into_usize(r.get_or_intern(s))
}

/// Relies on `lasso::Rodeo::get`: the key of a string held, without
/// interning anything.
#[verifier::external_body]
fn rodeo_get(r: &lasso::Rodeo, s: &str) -> (k: Option<usize>)
    ensures
        k is Some <==> rodeo_strings(*r).contains(s@),
        k matches Some(i) ==> i < rodeo_strings(*r).len() && rodeo_strings(*r)[i as int] == s@,
{
    r.get(s).map(lasso::Key::into_usize)
}

/// Relies on `lasso::Rodeo::resolve`: the string of a key made by this rodeo.
#[verifier::external_body]
fn rodeo_resolve(r: &lasso::Rodeo, k: usize) -> (s: &str)
    requires
        k < rodeo_strings(*r).len(),
        k < u32::MAX,
    ensures
        s@ == rodeo_strings(*r)[k as int],
{
    r.resolve(&<lasso::Spur as lasso::Key>::try_from_usize(k).unwrap())
}

/// Relies on `lasso::Rodeo::len`: the number of strings held.
#[verifier::external_body]
fn rodeo_len(r: &lasso::Rodeo) -> (n: usize)
    ensures
        n == rodeo_strings(*r).len(),
{
    r.len()
}

/// The largest number of strings an interner holds.
pub const MAX_KEYS: usize = 4294967294;

/// Maps article paths to dense `u32` keys, starting at zero.
pub struct Interner {
    rodeo: lasso::Rodeo,
}

impl View for Interner {
    type V = Seq<Seq<char>>;

    closed spec fn view(&self) -> Seq<Seq<char>> {
        rodeo_strings(self.rodeo)
    }
}

impl Interner {
    /// Keys are dense and name distinct strings.
    pub open spec fn wf(&self) -> bool {
        &&& self@.no_duplicates()
        &&& self@.len() <= MAX_KEYS
    }

    /// The key of `s`, where `s` is held.
    pub open spec fn key_of(&self, s: Seq<char>) -> int {
        self@.index_of(s)
    }

    pub fn new() -> (r: Interner)
        ensures
            r.wf(),
            r@ == Seq::<Seq<char>>::empty(),
    {
        Interner { rodeo: rodeo_new() }
    }

    pub fn len(&self) -> (n: usize)
        ensures
            n == self@.len(),
    {
        rodeo_len(&self.rodeo)
    }

    /// The key of `s`, interning it first where it is new. `None` only when
    /// `s` is new and the interner is full.
    pub fn get_or_intern(&mut self, s: &str) -> (r: Option<u32>)
        requires
            old(self).wf(),
        ensures
            final(self).wf(),
            match r {
                Some(k) => {
                    &&& k < final(self)@.len()
                    &&& final(self)@[k as int] == s@
                    &&& old(self)@.contains(s@) ==> final(self)@ == old(self)@
                    &&& !old(self)@.contains(s@) ==> final(self)@ == old(self)@.push(s@)
                },
                None => old(self)@.len() == MAX_KEYS && final(self)@ == old(self)@,
            },
            r is None <==> old(self)@.len() == MAX_KEYS,
    {
        let n = rodeo_len(&self.rodeo);
        if n >= MAX_KEYS {
            return None;
        }
        let k = rodeo_get_or_intern(&mut self.rodeo, s);
        proof {
            if !old(self)@.contains(s@) {
                let v = old(self)@.push(s@);
                assert forall|i: int, j: int|
                    0 <= i < v.len() && 0 <= j < v.len() && i != j implies v[i] != v[j] by {
                    if j == v.len() - 1 {
                        assert(old(self)@[i] == v[i]);
                    } else if i == v.len() - 1 {
                        assert(old(self)@[j] == v[j]);
                    }
                }
            }
        }
        Some(k as u32)
    }

    /// The key of `s`, where `s` is held; nothing is interned.
    pub fn get(&self, s: &str) -> (r: Option<u32>)
        requires
            self.wf(),
        ensures
            r is Some <==> self@.contains(s@),
            r matches Some(k) ==> k < self@.len() && self@[k as int] == s@,
    {
        match rodeo_get(&self.rodeo, s) {
            Some(k) => Some(k as u32),
            None => None,
        }
    }

    /// The string of key `k`.
    pub fn resolve(&self, k: u32) -> (s: &str)
        requires
            self.wf(),
            k < self@.len(),
        ensures
            s@ == self@[k as int],
    {
        rodeo_resolve(&self.rodeo, k as usize)
    }
}

} // verus!
