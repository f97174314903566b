//! A concept's trust tier and lifecycle status, with the names the
//! frontmatter, the query syntax, and every report use for them.
use crate::chars::chars_of;
use crate::markdown::eq_chars;
use crate::text::push_str;
use vstd::prelude::*;

verus! {

/// How far a concept's content has been checked.
#[derive(Clone, Copy, Debug, PartialEq, Eq, Structural, Hash)]
pub enum TrustTier {
    /// Nobody has confirmed the content.
    Unverified,
    /// A process or an agent confirmed it.
    MachineConfirmed,
    /// A person reviewed it.
    HumanReviewed,
}

/// The name of a tier.
pub open spec fn tier_name(t: TrustTier) -> Seq<char> {
    match t {
        TrustTier::Unverified => seq!['u', 'n', 'v', 'e', 'r', 'i', 'f', 'i', 'e', 'd'],
        TrustTier::MachineConfirmed => seq![
            'm', 'a', 'c', 'h', 'i', 'n', 'e', '-', 'c', 'o', 'n', 'f', 'i', 'r', 'm', 'e', 'd',
        ],
        TrustTier::HumanReviewed => seq![
            'h', 'u', 'm', 'a', 'n', '-', 'r', 'e', 'v', 'i', 'e', 'w', 'e', 'd',
        ],
    }
}

/// The tier a name denotes, if any.
pub open spec fn tier_named(s: Seq<char>) -> Option<TrustTier> {
    if s == tier_name(TrustTier::Unverified) {
        Some(TrustTier::Unverified)
    } else if s == tier_name(TrustTier::MachineConfirmed) {
        Some(TrustTier::MachineConfirmed)
    } else if s == tier_name(TrustTier::HumanReviewed) {
        Some(TrustTier::HumanReviewed)
    } else {
        None
    }
}

fn chars_equal(s: &str, lit: &[char]) -> (r: bool)
    ensures
        r == (s@ == lit@),
{
    let v = chars_of(s);
    eq_chars(v.as_slice(), lit)
}

impl TrustTier {
    /// The tier's name: `unverified`, `machine-confirmed`, `human-reviewed`.
    pub fn as_str(&self) -> (r: String)
        ensures
            r@ == tier_name(*self),
    {
        let mut v: Vec<char> = Vec::new();
        match self {
            TrustTier::Unverified => {
                v = vec!['u', 'n', 'v', 'e', 'r', 'i', 'f', 'i', 'e', 'd'];
            },
            TrustTier::MachineConfirmed => {
                v = vec![
                    'm', 'a', 'c', 'h', 'i', 'n', 'e', '-', 'c', 'o', 'n', 'f', 'i', 'r', 'm', 'e', 'd',
                ];
            },
            TrustTier::HumanReviewed => {
                v = vec!['h', 'u', 'm', 'a', 'n', '-', 'r', 'e', 'v', 'i', 'e', 'w', 'e', 'd'];
            },
        }
        let r = crate::chars::string_of(v.as_slice());
        proof {
            match self {
                TrustTier::Unverified => assert(v@ =~= tier_name(*self)),
                TrustTier::MachineConfirmed => assert(v@ =~= tier_name(*self)),
                TrustTier::HumanReviewed => assert(v@ =~= tier_name(*self)),
            }
        }
        r
    }

    /// The tier named `s` (exactly one of the three names), if any.
    pub fn from_name(s: &str) -> (r: Option<TrustTier>)
        ensures
            r == tier_named(s@),
    {
        let u = vec!['u', 'n', 'v', 'e', 'r', 'i', 'f', 'i', 'e', 'd'];
        let m = vec!['m', 'a', 'c', 'h', 'i', 'n', 'e', '-', 'c', 'o', 'n', 'f', 'i', 'r', 'm', 'e', 'd'];
        let h = vec!['h', 'u', 'm', 'a', 'n', '-', 'r', 'e', 'v', 'i', 'e', 'w', 'e', 'd'];
        proof {
            assert(u@ =~= tier_name(TrustTier::Unverified));
            assert(m@ =~= tier_name(TrustTier::MachineConfirmed));
            assert(h@ =~= tier_name(TrustTier::HumanReviewed));
        }
        if chars_equal(s, u.as_slice()) {
            Some(TrustTier::Unverified)
        } else if chars_equal(s, m.as_slice()) {
            Some(TrustTier::MachineConfirmed)
        } else if chars_equal(s, h.as_slice()) {
            Some(TrustTier::HumanReviewed)
        } else {
            None
        }
    }
}

/// A concept's lifecycle status: the three known values, or any other text
/// the frontmatter carries.
#[derive(Clone, Debug, PartialEq, Eq, Hash)]
pub enum Status {
    Draft,
    Stable,
    Deprecated,
    Other(String),
}

/// The name of a status.
pub open spec fn status_name(s: Status) -> Seq<char> {
    match s {
        Status::Draft => seq!['d', 'r', 'a', 'f', 't'],
        Status::Stable => seq!['s', 't', 'a', 'b', 'l', 'e'],
        Status::Deprecated => seq!['d', 'e', 'p', 'r', 'e', 'c', 'a', 't', 'e', 'd'],
        Status::Other(t) => t@,
    }
}

impl Status {
    /// The status as written: `draft`, `stable`, `deprecated`, or the other
    /// text itself.
    pub fn as_str(&self) -> (r: String)
        ensures
            r@ == status_name(*self),
    {
        let mut v: Vec<char> = Vec::new();
        match self {
            Status::Draft => {
                v = vec!['d', 'r', 'a', 'f', 't'];
                proof {
                    assert(v@ =~= status_name(*self));
                }
            },
            Status::Stable => {
                v = vec!['s', 't', 'a', 'b', 'l', 'e'];
                proof {
                    assert(v@ =~= status_name(*self));
                }
            },
            Status::Deprecated => {
                v = vec!['d', 'e', 'p', 'r', 'e', 'c', 'a', 't', 'e', 'd'];
                proof {
                    assert(v@ =~= status_name(*self));
                }
            },
            Status::Other(t) => {
                push_str(&mut v, t.as_str());
                proof {
                    assert(v@ =~= status_name(*self));
                }
            },
        }
        crate::chars::string_of(v.as_slice())
    }

    /// Whether the status is `Deprecated`.
    pub fn is_deprecated(&self) -> (r: bool)
        ensures
            r == (*self is Deprecated),
    {
        match self {
            Status::Deprecated => true,
            _ => false,
        }
    }
}

} // verus!
