use vstd::prelude::*;

verus! {

/// Discards an `Option` on purpose, for calls whose outcome does not matter.
pub trait OptionExt<T> {
    fn void(self);
}

impl<T> OptionExt<T> for Option<T> {
    /// Drops the value, whatever it holds.
    fn void(self) {
        match self {
            Some(_) => (),
            None => (),
        }
    }
}

/// Discards a `Result` on purpose, for calls whose failure is not reported.
pub trait ResultExt<T, E> {
    fn void(self);
}

impl<T, E> ResultExt<T, E> for Result<T, E> {
    /// Drops the value, success or error alike.
    fn void(self) {
        match self {
            Ok(_) => (),
            Err(_) => (),
        }
    }
}

} // verus!
