use vstd::prelude::*;

verus! {

/// `String::from` on a string slice, of std: the string holds the characters
/// of the slice.
pub assume_specification<'a, 'b>[ <String as From<&'a str>>::from ](text: &'b str) -> (r: String)
    ensures
        r@ == text@,
;

/// An error with the message that tells what went wrong.
#[derive(Debug)]
pub struct SmolError {
    pub message: String,
}

impl SmolError {
    pub fn new<T: Into<String>>(msg: T) -> (r: Self)
        ensures
            call_ensures(T::into, (msg,), r.message),
    {
        SmolError { message: msg.into() }
    }
}

impl Clone for SmolError {
    fn clone(&self) -> (r: Self)
        ensures
            r == *self,
    {
        SmolError { message: self.message.clone() }
    }
}

} // verus!
