use vstd::prelude::*;

verus! {

/// A value read from the operating system, which may also have been denied
/// by permissions or may not exist because the process already exited.
///
/// The variants are ordered `Defunct < Unauthorized < Present(_)`, so unknown
/// values sort to one end.
#[derive(Clone, Debug, PartialEq, Eq, PartialOrd, Ord)]
pub enum Info<T> {
    Defunct,
    Unauthorized,
    Present(T),
}

/// Position of a variant in the fixed order of `Info`.
pub open spec fn info_rank<T>(i: Info<T>) -> int {
    match i {
        Info::Defunct => 0,
        Info::Unauthorized => 1,
        Info::Present(_) => 2,
    }
}

impl<T> Info<T> {
    pub fn to_option(&self) -> (r: Option<&T>)
        ensures
            r == match self {
                Info::Present(v) => Option::Some(v),
                _ => Option::None,
            },
    {
        match self {
            Info::Defunct | Info::Unauthorized => None,
            Info::Present(info) => Some(info),
        }
    }

    pub fn map<U, F: FnOnce(T) -> U>(self, f: F) -> (r: Info<U>)
        requires
            self matches Info::Present(x) ==> f.requires((x,)),
        ensures
            self is Defunct ==> r is Defunct,
            self is Unauthorized ==> r is Unauthorized,
            self matches Info::Present(x) ==> (r matches Info::Present(y) && f.ensures((x,), y)),
    {
        match self {
            Info::Defunct => Info::Defunct,
            Info::Unauthorized => Info::Unauthorized,
            Info::Present(info) => Info::Present(f(info)),
        }
    }
}

impl<T> Info<Option<T>> {
    pub fn to_inner_option(&self) -> (r: Option<&T>)
        ensures
            r == match self {
                Info::Present(Option::Some(v)) => Option::Some(v),
                _ => Option::None,
            },
    {
        match self {
            Info::Defunct | Info::Unauthorized => None,
            Info::Present(info) => info.as_ref(),
        }
    }
}

pub open spec fn defunct_text() -> Seq<char> {
    seq!['<', 'd', 'e', 'f', 'u', 'n', 'c', 't', '>']
}

pub open spec fn unauthorized_text() -> Seq<char> {
    seq!['<', 'u', 'n', 'a', 'u', 't', 'h', 'o', 'r', 'i', 'z', 'e', 'd', '>']
}

pub open spec fn unknown_text() -> Seq<char> {
    seq!['<', 'u', 'n', 'k', 'n', 'o', 'w', 'n', '>']
}

/// What an optional text field shows: its value, or a placeholder that tells
/// the three missing states apart.
pub open spec fn opt_text_display(i: Info<Option<String>>) -> Seq<char> {
    match i {
        Info::Defunct => defunct_text(),
        Info::Unauthorized => unauthorized_text(),
        Info::Present(Option::None) => unknown_text(),
        Info::Present(Option::Some(s)) => s@,
    }
}

/// What a text field shows: its value or a placeholder.
pub open spec fn text_display(i: Info<String>) -> Seq<char> {
    match i {
        Info::Defunct => defunct_text(),
        Info::Unauthorized => unauthorized_text(),
        Info::Present(s) => s@,
    }
}

impl Info<Option<String>> {
    pub fn to_str(&self) -> (r: &str)
        ensures
            r@ == opt_text_display(*self),
    {
        match self {
            Info::Defunct => {
                proof { reveal_strlit("<defunct>"); }
                "<defunct>"
            },
            Info::Unauthorized => {
                proof { reveal_strlit("<unauthorized>"); }
                "<unauthorized>"
            },
            Info::Present(None) => {
                proof { reveal_strlit("<unknown>"); }
                "<unknown>"
            },
            Info::Present(Some(info)) => info.as_str(),
        }
    }
}

impl Info<String> {
    pub fn to_str(&self) -> (r: &str)
        ensures
            r@ == text_display(*self),
    {
        match self {
            Info::Defunct => {
                proof { reveal_strlit("<defunct>"); }
                "<defunct>"
            },
            Info::Unauthorized => {
                proof { reveal_strlit("<unauthorized>"); }
                "<unauthorized>"
            },
            Info::Present(info) => info.as_str(),
        }
    }
}

} // verus!
