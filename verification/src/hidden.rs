//! What a viewer may see of a state: the three classes of fields, and the
//! values that hidden and private fields take in a snapshot.

use vstd::prelude::*;

verus! {

/// The class of a field of a state. An open field is shown to every viewer
/// as it is, a hidden field to the viewers that can see it at the moment, a
/// private field to its owner only.
#[derive(Clone, Copy, Debug, PartialEq, Eq, Structural)]
pub enum Visibility {
    Open,
    Hidden,
    Private,
}

/// The class of a field, given how it is marked: open where it is marked
/// open and the mark is not switched off, else hidden where a rule for
/// hiding it is named, else private.
pub fn classify(open: Option<bool>, hidden: bool) -> (class: Visibility)
    ensures
        class == (if open == Some(true) {
            Visibility::Open
        } else if hidden {
            Visibility::Hidden
        } else {
            Visibility::Private
        }),
{
    match open {
        Some(true) => Visibility::Open,
        _ => if hidden {
            Visibility::Hidden
        } else {
            Visibility::Private
        },
    }
}

/// A hidden field in a snapshot: not seen, seen now with its value, or not
/// seen now but remembered with the value it had when last seen.
#[derive(Clone, Copy, Debug, PartialEq, Eq)]
pub enum Hidden<T> {
    Unseen,
    Seen(T),
    LastSeen(T),
}

impl<T> Hidden<T> {
    /// The field as computed for a viewer: seen with `value` if `visible`.
    pub fn observe(visible: bool, value: T) -> (field: Hidden<T>)
        ensures
            field == (if visible {
                Hidden::Seen(value)
            } else {
                Hidden::Unseen
            }),
    {
        if visible {
            Hidden::Seen(value)
        } else {
            Hidden::Unseen
        }
    }

    /// What `update` yields.
    pub open spec fn updated(previous: Hidden<T>, new: Hidden<T>) -> Hidden<T> {
        match (previous, new) {
            (Hidden::LastSeen(v), Hidden::Unseen) => Hidden::LastSeen(v),
            _ => new,
        }
    }

    /// The field as it goes out to a viewer whose last snapshot held
    /// `previous`, when `new` is what was computed now. A viewer that
    /// remembers a value and sees none now keeps the remembered one; in every
    /// other case the new field goes out as it is.
    pub fn update(previous: Hidden<T>, new: Hidden<T>) -> (field: Hidden<T>)
        ensures
            field == Self::updated(previous, new),
    {
        match new {
            Hidden::Unseen => match previous {
                Hidden::LastSeen(v) => Hidden::LastSeen(v),
                _ => Hidden::Unseen,
            },
            Hidden::Seen(v) => Hidden::Seen(v),
            Hidden::LastSeen(v) => Hidden::LastSeen(v),
        }
    }

    /// The law of updates: a remembered value outlasts an unseen field, a
    /// seen value always goes out, and an unseen field goes out unseen where
    /// nothing is remembered.
    pub proof fn update_law(previous: Hidden<T>, v: T)
        ensures
            Self::updated(Hidden::LastSeen(v), Hidden::Unseen) == Hidden::LastSeen(v),
            Self::updated(previous, Hidden::Seen(v)) == Hidden::Seen(v),
            !(previous is LastSeen) ==> Self::updated(previous, Hidden::Unseen) == Hidden::<T>::Unseen,
    {
    }

    /// The field that goes out after each of `computed` in turn, to a viewer
    /// whose last snapshot held `first`.
    pub open spec fn updated_all(first: Hidden<T>, computed: Seq<Hidden<T>>) -> Hidden<T>
        decreases computed.len(),
    {
        if computed.len() == 0 {
            first
        } else {
            Self::updated(Self::updated_all(first, computed.drop_last()), computed.last())
        }
    }

    /// Over any run of snapshots the viewer holds what was computed last,
    /// unless that was unseen while a value was remembered: then it holds the
    /// remembered value.
    pub proof fn update_law_over_time(first: Hidden<T>, computed: Seq<Hidden<T>>)
        requires
            computed.len() > 0,
        ensures
            !(computed.last() is Unseen) ==> Self::updated_all(first, computed) == computed.last(),
            computed.last() is Unseen ==> (Self::updated_all(first, computed) is Unseen || (Self::updated_all(
                first,
                computed,
            ) is LastSeen && Self::updated_all(first, computed) == Self::updated_all(
                first,
                computed.drop_last(),
            ))),
    {
    }
}

/// A private field in a snapshot: its value for its owner, nothing for any
/// other viewer.
pub fn private<T>(viewer: u64, owner: u64, value: T) -> (field: Option<T>)
    ensures
        field == (if viewer == owner {
            Some(value)
        } else {
            None
        }),
{
    if viewer == owner {
        Some(value)
    } else {
        None
    }
}

} // verus!
