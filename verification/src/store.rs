use vstd::prelude::*;

verus! {

/// A named value cell for the interactive screens: the value the screens
/// render, and a process-unique name that listening views subscribe under.
pub struct Store<T> {
    pub value: T,
    pub name: String,
}

/// Relies on `uuid::Uuid::new_v4` and its `Display` form: a fresh random
/// identifier rendered hyphenated, 36 characters long. Nothing more can be
/// promised of a random value.
#[verifier::external_body]
fn fresh_name() -> (r: String)
    ensures
        r@.len() == 36,
{
    uuid::Uuid::new_v4().to_string()
}

impl<T> Store<T> {
    /// A store holding `initial_value` under a fresh name.
    pub fn new(initial_value: T) -> (s: Store<T>)
        ensures
            s.value == initial_value,
            s.name@.len() == 36,
    {
        Store { value: initial_value, name: fresh_name() }
    }

    /// The name of the store.
    pub fn get_name(&self) -> (r: String)
        ensures
            r@ == self.name@,
    {
        self.name.clone()
    }

    /// Puts a new value into the store; the name stays.
    pub fn set(&mut self, value: T)
        ensures
            final(self).value == value,
            final(self).name == old(self).name,
    {
        self.value = value;
    }

    /// The value the store holds.
    pub fn get(&self) -> (r: &T)
        ensures
            r == self.value,
    {
        &self.value
    }
}

} // verus!
