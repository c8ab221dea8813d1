use vstd::prelude::*;

use crate::ids::{digits_value, is_numeral, numeral_digits, Uid};

verus! {

/// One entry of the owner allow-list.
#[derive(Clone, Debug)]
pub enum UserFilter {
    Uid(Uid),
    Username(String),
}

/// Why an owner entry was refused.
#[derive(Clone, Copy, Debug, PartialEq, Eq, Structural)]
pub enum UserFilterError {
    /// The entry is empty.
    Empty,
}

/// Reads the entries of the owner allow-list.
#[derive(Clone, Copy, Debug)]
pub struct Parser;

impl Parser {
    /// Reads one owner entry: `-` stands for the current user, a decimal number
    /// that fits a user id is a user id, anything else non-empty a user name.
    pub fn parse_ref(&self, value: &str, current: Uid) -> (r: Result<UserFilter, UserFilterError>)
        ensures
            value@.len() == 0 ==> r == Err::<UserFilter, UserFilterError>(UserFilterError::Empty),
            value@ == seq!['-'] ==> (r matches Ok(UserFilter::Uid(u)) && u == current),
            value@.len() > 0 && value@ != seq!['-'] && is_numeral(value@) && digits_value(numeral_digits(value@))
                <= u32::MAX ==> (r matches Ok(UserFilter::Uid(u)) && u.0 == digits_value(numeral_digits(value@))),
            value@.len() > 0 && value@ != seq!['-'] && !(is_numeral(value@) && digits_value(numeral_digits(value@))
                <= u32::MAX) ==> (r matches Ok(UserFilter::Username(n)) && n@ == value@),
    {
        let len = value.unicode_len();
        if len == 0 {
            return Err(UserFilterError::Empty);
        }
        if len == 1 && value.get_char(0) == '-' {
            assert(value@ =~= seq!['-']);
            return Ok(UserFilter::Uid(current));
        }
        assert(value@ != seq!['-']) by {
            if value@ == seq!['-'] {
                assert(value@.len() == 1 && value@[0] == '-');
            }
        }
        match Uid::parse(value) {
            Some(uid) => Ok(UserFilter::Uid(uid)),
            None => Ok(UserFilter::Username(String::from_str(value))),
        }
    }
}

} // verus!
