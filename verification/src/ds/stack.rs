use vstd::prelude::*;

verus! {

/// A last-in, first-out pile of values.
pub struct Stack<Type>(Vec<Type>);

impl<Type> View for Stack<Type> {
    type V = Seq<Type>;

    /// The values from the oldest to the newest.
    closed spec fn view(&self) -> Seq<Type> {
        self.0@
    }
}

impl<Type> Stack<Type> {
    pub fn new() -> (stack: Self)
        ensures
            stack@ == Seq::<Type>::empty(),
    {
        Self(Vec::new())
    }

    pub fn is_empty(&self) -> (empty: bool)
        ensures
            empty == (self@.len() == 0),
    {
        self.0.len() == 0
    }

    /// Number of values on the stack.
    pub fn len(&self) -> (len: usize)
        ensures
            len == self@.len(),
    {
        self.0.len()
    }

    /// Puts `value` on top.
    pub fn add(&mut self, value: Type)
        ensures
            final(self)@ == old(self)@.push(value),
    {
        self.0.push(value);
    }

    /// Takes the newest value off, if there is one.
    pub fn take(&mut self) -> (value: Option<Type>)
        ensures
            old(self)@.len() == 0 ==> value is None && final(self)@ == old(self)@,
            old(self)@.len() > 0 ==> value == Some(old(self)@.last()) && final(self)@ == old(
                self,
            )@.drop_last(),
    {
        self.0.pop()
    }

    /// The newest value, if there is one.
    pub fn peek(&self) -> (value: Option<&Type>)
        ensures
            self@.len() == 0 ==> value is None,
            self@.len() > 0 ==> value == Some(&self@.last()),
    {
        let len = self.0.len();
        if len == 0 {
            None
        } else {
            Some(&self.0[len - 1])
        }
    }
}

} // verus!
