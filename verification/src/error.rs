use vstd::prelude::*;

verus! {

/// Why a value, a query or a set of transaction options was refused.
#[derive(Debug, Clone, Copy, PartialEq, Eq, Structural)]
pub enum Error {
    /// A value's wire encoding breaks its type's contract: no variant or
    /// several, a payload of the wrong kind, an integer that is no decimal
    /// 64-bit number.
    MalformedValue,
    /// A query breaks a structural rule: a negative limit or offset, a
    /// composite filter without operands, a filter with no kind or several.
    InvalidQuery,
    /// Transaction options name both modes or neither.
    InvalidTransactionOptions,
    /// A field supplied by the caller bears a reserved name.
    FieldNameReserved,
}

impl Error {
    /// The name of the error.
    pub open spec fn name(self) -> Seq<char> {
        match self {
            Error::MalformedValue => "MalformedValue"@,
            Error::InvalidQuery => "InvalidQuery"@,
            Error::InvalidTransactionOptions => "InvalidTransactionOptions"@,
            Error::FieldNameReserved => "FieldNameReserved"@,
        }
    }

    /// The name of the error, as text.
    pub fn to_string(&self) -> (s: String)
        ensures
            s@ == self.name(),
    {
        match self {
            Error::MalformedValue => String::from_str("MalformedValue"),
            Error::InvalidQuery => String::from_str("InvalidQuery"),
            Error::InvalidTransactionOptions => String::from_str("InvalidTransactionOptions"),
            Error::FieldNameReserved => String::from_str("FieldNameReserved"),
        }
    }
}

/// Whether an executable result `r` is the one that the model `s` asks for:
/// the same error, or a value whose view is the model's value.
pub open spec fn yields<T: View>(r: Result<T, Error>, s: Result<T::V, Error>) -> bool {
    match r {
        Ok(v) => s == Ok::<T::V, Error>(v@),
        Err(e) => s == Err::<T::V, Error>(e),
    }
}

/// What sending a value gives: the error of its check, or its tree.
pub open spec fn encoding<V>(check: Result<(), Error>, tree: V) -> Result<V, Error> {
    match check {
        Ok(_) => Ok(tree),
        Err(e) => Err(e),
    }
}

/// The view of an optional value.
pub open spec fn opt_view<T: View>(o: Option<T>) -> Option<T::V> {
    match o {
        Some(x) => Some(x@),
        None => None,
    }
}

/// The views of the items of a list.
pub open spec fn seq_view<T: View>(s: Seq<T>) -> Seq<T::V> {
    Seq::new(s.len(), |i: int| s[i]@)
}

} // verus!
