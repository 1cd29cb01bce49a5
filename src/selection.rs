//! Keyboard navigation of a list's selection: from the key pressed, the
//! current selection and the number of items, the selection to move to.

use vstd::prelude::*;

verus! {

/// The keys a list reacts to; every other key is `Other`.
#[derive(Debug, Clone, Copy, PartialEq, Eq)]
pub enum NavKey {
    Home,
    End,
    ArrowUp,
    ArrowDown,
    Other,
}

/// What a key press does: whether the list consumes the event, and the
/// selection to set (and scroll to), if it changes.
#[derive(Debug, Clone, Copy, PartialEq, Eq)]
pub struct Navigation {
    pub handled: bool,
    pub select: Option<usize>,
}

/// Home and End go to the first and last item; ArrowUp and ArrowDown step by
/// one without wrapping, and from no selection go to the last and the first
/// item. Nothing is selected in an empty list.
pub fn navigate(key: NavKey, current: Option<usize>, length: usize) -> (r: Navigation)
    ensures
        r.handled == !(key is Other),
        (current matches Some(c) ==> c < length) && r.select is Some ==> r.select->0 < length,
        r.select == match key {
            NavKey::Home => if length > 0 {
                Some(0usize)
            } else {
                None
            },
            NavKey::End => if length > 0 {
                Some((length - 1) as usize)
            } else {
                None
            },
            NavKey::ArrowUp => match current {
                Some(i) => if 0 < i {
                    Some((i - 1) as usize)
                } else {
                    None
                },
                None => if length > 0 {
                    Some((length - 1) as usize)
                } else {
                    None
                },
            },
            NavKey::ArrowDown => match current {
                Some(i) => if i + 1 < length {
                    Some((i + 1) as usize)
                } else {
                    None
                },
                None => if length > 0 {
                    Some(0usize)
                } else {
                    None
                },
            },
            NavKey::Other => None,
        },
{
    match key {
        NavKey::Home => Navigation {
            handled: true,
            select: if length > 0 {
                Some(0)
            } else {
                None
            },
        },
        NavKey::End => Navigation {
            handled: true,
            select: if length > 0 {
                Some(length - 1)
            } else {
                None
            },
        },
        NavKey::ArrowUp => Navigation {
            handled: true,
            select: match current {
                Some(i) => if i > 0 {
                    Some(i - 1)
                } else {
                    None
                },
                None => if length > 0 {
                    Some(length - 1)
                } else {
                    None
                },
            },
        },
        NavKey::ArrowDown => Navigation {
            handled: true,
            select: match current {
                Some(i) => if i < length && i + 1 < length {
                    Some(i + 1)
                } else {
                    None
                },
                None => if length > 0 {
                    Some(0)
                } else {
                    None
                },
            },
        },
        NavKey::Other => Navigation { handled: false, select: None },
    }
}

} // verus!
