//! Single-assignment helper type.

use vstd::prelude::*;

verus! {

/// A value that can be written to at most once.
#[derive(Debug)]
pub enum Once<T> {
    /// The value has not been initialized.
    Uninit,
    /// The value has been initialized.
    Init(T),
}

impl<T> Once<T> {
    /// Create a new uninitialized instance.
    pub fn new() -> (r: Self)
        ensures
            r is Uninit,
    {
        Once::Uninit
    }

    /// Try to initialize the value, returning the input on failure.
    pub fn try_init(&mut self, value: T) -> (r: Result<(), T>)
        ensures
            *old(self) is Uninit ==> r is Ok && *final(self) == Once::Init(value),
            *old(self) is Init ==> r == Result::<(), T>::Err(value) && *final(self) == *old(self),
    {
        match self {
            Once::Uninit => {
                *self = Once::Init(value);
                Ok(())
            }
            Once::Init(_) => Err(value),
        }
    }

    /// Initialize the value; the instance must not have been set yet.
    pub fn init(&mut self, value: T)
        requires
            *old(self) is Uninit,
        ensures
            *final(self) == Once::Init(value),
    {
        match self.try_init(value) {
            Ok(_) => (),
            Err(_) => {
                proof {
                    assert(false);
                }
            },
        }
    }

    /// Get a reference to the value if it has been initialized.
    pub fn get(&self) -> (r: Option<&T>)
        ensures
            match *self {
                Once::Uninit => r is None,
                Once::Init(v) => r matches Some(x) && *x == v,
            },
    {
        match self {
            Once::Uninit => None,
            Once::Init(value) => Some(value),
        }
    }
}

impl<T> Default for Once<T> {
    fn default() -> (r: Self)
        ensures
            r is Uninit,
    {
        Once::Uninit
    }
}

} // verus!
