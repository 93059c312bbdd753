use vstd::prelude::*;

verus! {

/// Who wrote a message.
#[derive(Debug, Copy, Clone, PartialEq, Eq, Structural)]
pub enum Role {
    System,
    User,
    Assistant,
    Tool,
}

/// The wire number of each role.
pub open spec fn role_number(r: Role) -> u8 {
    match r {
        Role::System => 0,
        Role::User => 1,
        Role::Assistant => 2,
        Role::Tool => 3,
    }
}

impl Role {
    /// The role's wire number.
    pub fn val(&self) -> (r: u8)
        ensures
            r == role_number(*self),
    {
        match self {
            Role::System => 0,
            Role::User => 1,
            Role::Assistant => 2,
            Role::Tool => 3,
        }
    }

    /// The role with wire number `val`, if there is one.
    pub fn from_val(val: u8) -> (r: Option<Self>)
        ensures
            r matches Some(role) ==> role_number(role) == val,
            r is None <==> val > 3,
    {
        match val {
            0 => Some(Self::System),
            1 => Some(Self::User),
            2 => Some(Self::Assistant),
            3 => Some(Self::Tool),
            _ => None,
        }
    }
}

/// Reading back a role's number gives the role, and every number that names a role
/// is some role's number.
pub proof fn lemma_role_round_trip(r: Role, v: u8)
    ensures
        role_number(r) <= 3,
        v <= 3 ==> exists|q: Role| role_number(q) == v,
        forall|q: Role| role_number(q) == role_number(r) ==> q == r,
{
    if v == 0 {
        assert(role_number(Role::System) == v);
    } else if v == 1 {
        assert(role_number(Role::User) == v);
    } else if v == 2 {
        assert(role_number(Role::Assistant) == v);
    } else if v == 3 {
        assert(role_number(Role::Tool) == v);
    }
}

/// A message: its author's role and its bytes.
#[derive(Debug, Clone)]
pub struct Message {
    pub role: Role,
    pub content: Vec<u8>,
}

} // verus!
