use vstd::prelude::*;
use std::sync::Arc;

verus! {

/// The name of a program file.
#[derive(Debug, PartialEq, Eq, Hash)]
pub struct Identifier {
    pub value: String,
}

impl Identifier {
    /// Makes an identifier of the given text.
    pub fn of(value: &str) -> (r: Identifier)
        ensures
            r@ == value@,
    {
        Identifier { value: value.to_owned() }
    }

    /// The identifier's text.
    pub fn text(&self) -> (r: &str)
        ensures
            r@ == self@,
    {
        self.value.as_str()
    }

}

impl View for Identifier {
    type V = Seq<char>;

    /// The identifier's text as characters.
    open spec fn view(&self) -> Seq<char> {
        self.value@
    }
}

impl Clone for Identifier {
    fn clone(&self) -> (r: Self)
        ensures
            r == *self,
    {
        Identifier { value: self.value.clone() }
    }
}

/// What can go wrong while reading, parsing or evaluating programs.
#[derive(Debug, PartialEq, Eq)]
pub enum Error {
    FileNotFound(Identifier),
    CouldNotParse(Identifier),
    DivideByZero(Identifier, i64),
    NoSuchArg(Identifier, u32),
    /// A call of this file repeats, with the same arguments, a call that is
    /// still under way, so it would never end.
    Cycle(Identifier),
}

impl Clone for Error {
    fn clone(&self) -> (r: Self)
        ensures
            r == *self,
    {
        match self {
            Error::FileNotFound(i) => Error::FileNotFound(i.clone()),
            Error::CouldNotParse(i) => Error::CouldNotParse(i.clone()),
            Error::DivideByZero(i, n) => Error::DivideByZero(i.clone(), *n),
            Error::NoSuchArg(i, n) => Error::NoSuchArg(i.clone(), *n),
            Error::Cycle(i) => Error::Cycle(i.clone()),
        }
    }
}

/// `Arc::clone`: another pointer to the same value.
#[verifier::external_body]
pub fn share_arc<T>(a: &Arc<T>) -> (r: Arc<T>)
    ensures
        r == *a,
{
    a.clone()
}

/// A value that can hand out another handle to the same data.
pub trait Share: Sized {
    /// The two values hold the same data.
    spec fn same(&self, other: &Self) -> bool;

    /// Another handle to the data of `self`.
    fn share(&self) -> (r: Self)
        ensures
            self.same(&r),
    ;
}

impl<T: Share> Share for Result<T, Error> {
    /// Both succeeded with the same data, or both failed with the same error.
    open spec fn same(&self, other: &Self) -> bool {
        match (*self, *other) {
            (Ok(a), Ok(b)) => a.same(&b),
            (Err(a), Err(b)) => a == b,
            _ => false,
        }
    }

    fn share(&self) -> (r: Self) {
        match self {
            Ok(val) => Ok(val.share()),
            Err(err) => Err(err.clone()),
        }
    }
}

/// A value with an id used for caching. The id must exactly identify the
/// data: equal ids mean equal data for whatever is computed from it.
pub trait HasId {
    type Uid: Eq + std::hash::Hash;

    /// The id of this value.
    spec fn uid(&self) -> Self::Uid;

    fn id(&self) -> (r: Self::Uid)
        ensures
            r == self.uid(),
    ;
}

impl HasId for Identifier {
    type Uid = String;

    open spec fn uid(&self) -> String {
        self.value
    }

    fn id(&self) -> (r: String) {
        self.value.clone()
    }
}

impl<'t, A: HasId, B: HasId> HasId for (&'t A, &'t B) {
    type Uid = (A::Uid, B::Uid);

    open spec fn uid(&self) -> (A::Uid, B::Uid) {
        (self.0.uid(), self.1.uid())
    }

    fn id(&self) -> (r: (A::Uid, B::Uid)) {
        (self.0.id(), self.1.id())
    }
}

impl<'t, A: HasId, B: HasId, C: HasId> HasId for (&'t A, &'t B, &'t C) {
    type Uid = (A::Uid, B::Uid, C::Uid);

    open spec fn uid(&self) -> (A::Uid, B::Uid, C::Uid) {
        (self.0.uid(), self.1.uid(), self.2.uid())
    }

    fn id(&self) -> (r: (A::Uid, B::Uid, C::Uid)) {
        (self.0.id(), self.1.id(), self.2.id())
    }
}

} // verus!
