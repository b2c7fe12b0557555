//! Results of evaluation requests in the shape of the DMN technology compatibility kit: either
//! data, or a list of error details.
use vstd::prelude::*;

verus! {

/// One error detail.
pub struct TckErrorDto {
    /// Error details.
    pub detail: String,
}

/// A result holding data, or errors.
pub struct TckResultDto<T> {
    /// Result containing data.
    pub data: Option<T>,
    /// Result containing errors.
    pub errors: Vec<TckErrorDto>,
}

impl<T> Default for TckResultDto<T> {
    /// A result with neither data nor errors.
    fn default() -> (r: Self)
        ensures
            r.data is None,
            r.errors@.len() == 0,
    {
        TckResultDto { data: None, errors: Vec::new() }
    }
}

impl<T> TckResultDto<T> {
    /// A result holding the data `d` and no errors.
    pub fn data(d: T) -> (r: TckResultDto<T>)
        ensures
            r.data == Some(d),
            r.errors@.len() == 0,
    {
        TckResultDto { data: Some(d), errors: Vec::new() }
    }

    /// A result holding one error with the given detail, and no data.
    pub fn error(detail: String) -> (r: TckResultDto<T>)
        ensures
            r.data is None,
            r.errors@.len() == 1,
            r.errors@[0].detail == detail,
    {
        let mut errors: Vec<TckErrorDto> = Vec::new();
        errors.push(TckErrorDto { detail });
        TckResultDto { data: None, errors }
    }
}

} // verus!
