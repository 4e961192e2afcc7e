use vstd::prelude::*;
use crate::model::{Native, WordDef};

verus! {

/// A named operation: a native operation, or a body of source text that is
/// run when the word is invoked. A native operation takes precedence over a
/// body.
pub struct Word {
    pub name: String,
    pub body: String,
    pub func: Option<Native>,
}

impl Word {
    /// What the word does, leaving out its name.
    pub open spec fn def(&self) -> WordDef {
        WordDef { body: self.body@, func: self.func }
    }

    /// A word with the given name that does nothing yet.
    pub fn new(name: &str) -> (w: Word)
        ensures
            w.name@ == name@,
            w.body@ == Seq::<char>::empty(),
            w.func is None,
    {
        Word { name: name.to_owned(), body: String::new(), func: None }
    }

    /// The same word with `body` as its source text.
    pub fn body(self, body: &str) -> (w: Word)
        ensures
            w.name@ == self.name@,
            w.body@ == body@,
            w.func == self.func,
    {
        let mut w = self;
        w.body = body.to_owned();
        w
    }

    /// The same word carrying out the native operation `op`.
    pub fn func(self, op: Native) -> (w: Word)
        ensures
            w.name@ == self.name@,
            w.body@ == self.body@,
            w.func == Some(op),
    {
        let mut w = self;
        w.func = Some(op);
        w
    }
}

} // verus!
