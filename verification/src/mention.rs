//! Structures representing Discord @-mentions.

use vstd::prelude::*;
use vstd::string::*;

use crate::digits::dec_digits;
use crate::digits::u64_to_dec;

verus! {

/// A subset of [`Mention`] representing `@everyone`, `@here`, or `<@&ID>`.
#[derive(PartialEq, Eq, Debug, Copy, Clone, Hash)]
pub enum RoleType {
    /// `@everyone`.
    Everyone,
    /// `@here`.
    Here,
    /// `<@&ID>`.
    Role(u64),
}

/// A mention like `<@123>` or `@everyone`.
#[derive(PartialEq, Eq, Debug, Clone, Hash)]
pub enum Mention {
    /// Specifically mentioning a user: `<@ID>`.
    User(u64),
    /// Mentioning in the form `@everyone`, `@here`, or `<@&ID>`.
    Role(RoleType),
}

/// The characters a role mention renders to.
pub open spec fn role_type_render(r: RoleType) -> Seq<char> {
    match r {
        RoleType::Everyone => seq!['@', 'e', 'v', 'e', 'r', 'y', 'o', 'n', 'e'],
        RoleType::Here => seq!['@', 'h', 'e', 'r', 'e'],
        RoleType::Role(id) => seq!['<', '@', '&'] + dec_digits(id as int) + seq!['>'],
    }
}

/// The characters a mention renders to.
pub open spec fn mention_render(m: Mention) -> Seq<char> {
    match m {
        Mention::User(id) => seq!['<', '@'] + dec_digits(id as int) + seq!['>'],
        Mention::Role(r) => role_type_render(r),
    }
}

impl RoleType {
    /// Render this role mention as message text.
    pub fn render(&self) -> (r: String)
        ensures
            r@ == role_type_render(*self),
    {
        proof {
            reveal_strlit("@everyone");
            reveal_strlit("@here");
            reveal_strlit("<@&");
            reveal_strlit(">");
        }
        match self {
            RoleType::Everyone => {
                let s = String::from_str("@everyone");
                proof {
                    assert(s@ =~= role_type_render(*self));
                }
                s
            },
            RoleType::Here => {
                let s = String::from_str("@here");
                proof {
                    assert(s@ =~= role_type_render(*self));
                }
                s
            },
            RoleType::Role(id) => {
                let mut s = String::from_str("<@&");
                s.append(u64_to_dec(*id).as_str());
                s.append(">");
                proof {
                    assert(s@ =~= role_type_render(*self));
                }
                s
            },
        }
    }
}

impl Mention {
    /// Render this mention as message text.
    pub fn render(&self) -> (r: String)
        ensures
            r@ == mention_render(*self),
    {
        proof {
            reveal_strlit("<@");
            reveal_strlit(">");
        }
        match self {
            Mention::User(id) => {
                let mut s = String::from_str("<@");
                s.append(u64_to_dec(*id).as_str());
                s.append(">");
                proof {
                    assert(s@ =~= mention_render(*self));
                }
                s
            },
            Mention::Role(rt) => rt.render(),
        }
    }
}

} // verus!
