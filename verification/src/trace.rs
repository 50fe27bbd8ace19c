use vstd::prelude::*;

verus! {

/// The capability every leaf payload stored in a managed box must expose.
///
/// The three operations propagate the collector's signals across the part
/// of the object graph held *by value* inside a payload. Handles to other
/// managed boxes are not kept inside leaf data: they live in the `refs`
/// list of the containing [`crate::GcRefCell`], where the collector walks,
/// roots and unroots them itself. A leaf payload therefore has nothing to
/// visit, and the built-in implementations below are empty; structural
/// containers forward to their contents.
pub trait Trace {
    /// Propagates the `mark` signal: the payload is reachable.
    fn mark(&self);

    /// Propagates the `root` signal: the payload moved onto the stack.
    fn root(&self);

    /// Propagates the `unroot` signal: the payload moved into a managed
    /// location.
    fn unroot(&self);
}

impl Trace for () {
    fn mark(&self) {
    }

    fn root(&self) {
    }

    fn unroot(&self) {
    }
}

impl Trace for bool {
    fn mark(&self) {
    }

    fn root(&self) {
    }

    fn unroot(&self) {
    }
}

impl Trace for u8 {
    fn mark(&self) {
    }

    fn root(&self) {
    }

    fn unroot(&self) {
    }
}

impl Trace for u16 {
    fn mark(&self) {
    }

    fn root(&self) {
    }

    fn unroot(&self) {
    }
}

impl Trace for u32 {
    fn mark(&self) {
    }

    fn root(&self) {
    }

    fn unroot(&self) {
    }
}

impl Trace for u64 {
    fn mark(&self) {
    }

    fn root(&self) {
    }

    fn unroot(&self) {
    }
}

impl Trace for usize {
    fn mark(&self) {
    }

    fn root(&self) {
    }

    fn unroot(&self) {
    }
}

impl Trace for i8 {
    fn mark(&self) {
    }

    fn root(&self) {
    }

    fn unroot(&self) {
    }
}

impl Trace for i16 {
    fn mark(&self) {
    }

    fn root(&self) {
    }

    fn unroot(&self) {
    }
}

impl Trace for i32 {
    fn mark(&self) {
    }

    fn root(&self) {
    }

    fn unroot(&self) {
    }
}

impl Trace for i64 {
    fn mark(&self) {
    }

    fn root(&self) {
    }

    fn unroot(&self) {
    }
}

impl Trace for isize {
    fn mark(&self) {
    }

    fn root(&self) {
    }

    fn unroot(&self) {
    }
}

impl Trace for char {
    fn mark(&self) {
    }

    fn root(&self) {
    }

    fn unroot(&self) {
    }
}

impl Trace for String {
    fn mark(&self) {
    }

    fn root(&self) {
    }

    fn unroot(&self) {
    }
}

impl<T: Trace> Trace for Box<T> {
    fn mark(&self) {
        (**self).mark();
    }

    fn root(&self) {
        (**self).root();
    }

    fn unroot(&self) {
        (**self).unroot();
    }
}

impl<T: Trace> Trace for Option<T> {
    fn mark(&self) {
        match self {
            Some(x) => x.mark(),
            None => (),
        }
    }

    fn root(&self) {
        match self {
            Some(x) => x.root(),
            None => (),
        }
    }

    fn unroot(&self) {
        match self {
            Some(x) => x.unroot(),
            None => (),
        }
    }
}

impl<T: Trace, E: Trace> Trace for Result<T, E> {
    fn mark(&self) {
        match self {
            Ok(x) => x.mark(),
            Err(e) => e.mark(),
        }
    }

    fn root(&self) {
        match self {
            Ok(x) => x.root(),
            Err(e) => e.root(),
        }
    }

    fn unroot(&self) {
        match self {
            Ok(x) => x.unroot(),
            Err(e) => e.unroot(),
        }
    }
}

impl<T: Trace> Trace for Vec<T> {
    fn mark(&self) {
        let mut i: usize = 0;
        while i < self.len()
            decreases self.len() - i,
        {
            self[i].mark();
            i += 1;
        }
    }

    fn root(&self) {
        let mut i: usize = 0;
        while i < self.len()
            decreases self.len() - i,
        {
            self[i].root();
            i += 1;
        }
    }

    fn unroot(&self) {
        let mut i: usize = 0;
        while i < self.len()
            decreases self.len() - i,
        {
            self[i].unroot();
            i += 1;
        }
    }
}

} // verus!
