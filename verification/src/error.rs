use vstd::prelude::*;

verus! {

/// Why an operation on a semaphore did not take place.
#[derive(Clone, Copy, Debug, PartialEq, Eq, Structural)]
pub enum SemaphoreError {
    /// The semaphore is closed: nothing is granted any more.
    Broken,
    /// The pool would pass the largest count it can hold.
    CounterOverflow,
}

impl SemaphoreError {
    /// The error in words.
    pub open spec fn text(self) -> Seq<char> {
        match self {
            SemaphoreError::Broken => "Semaphore Broken"@,
            SemaphoreError::CounterOverflow => "Semaphore Counter Overflow"@,
        }
    }

    /// The error in words, for a caller that reports it.
    pub fn message(&self) -> (s: String)
        ensures
            s@ == self.text(),
    {
        match self {
            SemaphoreError::Broken => "Semaphore Broken".to_owned(),
            SemaphoreError::CounterOverflow => "Semaphore Counter Overflow".to_owned(),
        }
    }
}

} // verus!
