//! Small filters over optional integers: keep a value only when it is
//! present and non-negative, in two styles that agree, and the same as a
//! `Result` with an error for the missing or negative case.

use vstd::prelude::*;

verus! {

/// Why a value was filtered out.
#[derive(Eq, PartialEq, Debug, Structural, Clone, Copy)]
pub enum ErrNegative {
    V1,
    V2,
}

/// Keep the value only when it is present and non-negative.
pub fn foo(input: Option<i32>) -> (r: Option<i32>)
    ensures
        r == (match input {
            Some(i) => if i >= 0 {
                Some(i)
            } else {
                None
            },
            None => None::<i32>,
        }),
{
    if input.is_none() {
        return None;
    }
    let input = input.unwrap();
    if input < 0 {
        return None;
    }
    Some(input)
}

/// The same filter, written as one match.
pub fn foo2(input: Option<i32>) -> (r: Option<i32>)
    ensures
        r == (match input {
            Some(i) => if i >= 0 {
                Some(i)
            } else {
                None
            },
            None => None::<i32>,
        }),
{
    match input {
        Some(i) if i >= 0 => Some(i),
        _ => None,
    }
}

/// The filter as a `Result`: a present, non-negative value is `Ok`, all
/// else is the first error kind.
pub fn bar(input: Option<i32>) -> (r: Result<i32, ErrNegative>)
    ensures
        r == (match input {
            Some(i) => if i >= 0 {
                Ok(i)
            } else {
                Err::<i32, ErrNegative>(ErrNegative::V1)
            },
            None => Err::<i32, ErrNegative>(ErrNegative::V1),
        }),
{
    match foo(input) {
        Some(n) => Ok(n),
        None => Err(ErrNegative::V1),
    }
}

/// The same `Result` filter through `ok_or`.
pub fn bar2(input: Option<i32>) -> (r: Result<i32, ErrNegative>)
    ensures
        r == (match input {
            Some(i) => if i >= 0 {
                Ok(i)
            } else {
                Err::<i32, ErrNegative>(ErrNegative::V1)
            },
            None => Err::<i32, ErrNegative>(ErrNegative::V1),
        }),
{
    foo(input).ok_or(ErrNegative::V1)
}

} // verus!
