use vstd::prelude::*;

verus! {

/// A stack whose top can be looked at.
pub trait Stack<T> {
    /// The items, bottom first.
    spec fn items(&self) -> Seq<T>;

    /// The top of the stack, if there is one.
    fn peek(&self) -> (top: Option<&T>)
        ensures
            self.items().len() == 0 ==> top is None,
            self.items().len() > 0 ==> top == Some(&self.items().last()),
    ;
}

impl<T> Stack<T> for Vec<T> {
    open spec fn items(&self) -> Seq<T> {
        self@
    }

    fn peek(&self) -> (top: Option<&T>) {
        let len = self.len();
        if len == 0 {
            None
        } else {
            Some(&self[len - 1])
        }
    }
}

} // verus!
