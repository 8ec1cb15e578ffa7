//! Status enumerations carried in peer responses.
use vstd::prelude::*;
use crate::text::same_text;

verus! {

/// Outcome of validating a peer. The zero value only marks "not set".
#[derive(Clone, Copy, Debug, PartialEq, Eq, Hash, PartialOrd, Ord, Structural)]
pub enum ValidatePeerStatus {
    CreationUnknown,
    Valid,
    Invalid,
}

impl ValidatePeerStatus {
    /// The name of the value in the schema.
    pub open spec fn name(self) -> Seq<char> {
        match self {
            ValidatePeerStatus::CreationUnknown => "CREATION_UNKNOWN"@,
            ValidatePeerStatus::Valid => "VALID"@,
            ValidatePeerStatus::Invalid => "INVALID"@,
        }
    }

    /// The integer that stands for the value on the wire.
    pub open spec fn number(self) -> i32 {
        match self {
            ValidatePeerStatus::CreationUnknown => 0,
            ValidatePeerStatus::Valid => 1,
            ValidatePeerStatus::Invalid => 2,
        }
    }

    /// The three names differ from one another.
    pub proof fn lemma_names_distinct()
        ensures
            "CREATION_UNKNOWN"@ != "VALID"@,
            "CREATION_UNKNOWN"@ != "INVALID"@,
            "VALID"@ != "INVALID"@,
    {
        reveal_strlit("CREATION_UNKNOWN");
        reveal_strlit("VALID");
        reveal_strlit("INVALID");
        assert("VALID"@[0] != "INVALID"@[0]);
        assert("CREATION_UNKNOWN"@[0] != "INVALID"@[0]);
        assert("VALID"@[0] != "CREATION_UNKNOWN"@[0]);
    }

    /// The value whose schema name is `n`, if any.
    pub open spec fn from_name(n: Seq<char>) -> Option<Self> {
        if n == "CREATION_UNKNOWN"@ {
            Some(ValidatePeerStatus::CreationUnknown)
        } else if n == "VALID"@ {
            Some(ValidatePeerStatus::Valid)
        } else if n == "INVALID"@ {
            Some(ValidatePeerStatus::Invalid)
        } else {
            None
        }
    }

    /// Each value's name reads back as that value, and a string that is no
    /// value's name reads back as no value.
    pub proof fn lemma_name_round_trip(s: Self, n: Seq<char>)
        ensures
            Self::from_name(s.name()) == Some(s),
            Self::from_name(n) is None <==> (forall|t: Self| t.name() != n),
            Self::from_name(n) matches Some(t) ==> t.name() == n,
    {
        Self::lemma_names_distinct();
        assert(Self::from_name(s.name()) == Some(s)) by {
            match s {
                Self::CreationUnknown => {},
                Self::Valid => {},
                Self::Invalid => {},
            }
        }
        if let Some(t) = Self::from_name(n) {
            assert(t.name() == n);
        }
        if Self::from_name(n) is None {
            assert forall|t: Self| t.name() != n by {
                match t {
                    ValidatePeerStatus::CreationUnknown => {},
                    ValidatePeerStatus::Valid => {},
                    ValidatePeerStatus::Invalid => {},
                }
            }
        }
    }

    /// Whether `value` is the number of a value.
    pub fn is_valid(value: i32) -> (r: bool)
        ensures
            r == (exists|s: Self| s.number() == value),
    {
        if 0 <= value && value <= 2 {
            proof {
                let s = if value == 0 {
                    ValidatePeerStatus::CreationUnknown
                } else if value == 1 {
                    ValidatePeerStatus::Valid
                } else {
                    ValidatePeerStatus::Invalid
                };
                assert(s.number() == value);
            }
            true
        } else {
            assert forall|s: Self| s.number() != value by {
                match s {
                    ValidatePeerStatus::CreationUnknown => {},
                    ValidatePeerStatus::Valid => {},
                    ValidatePeerStatus::Invalid => {},
                }
            }
            false
        }
    }

    /// The value whose number is `value`, if any; a number that names no
    /// value gives none.
    pub fn from_i32(value: i32) -> (r: Option<Self>)
        ensures
            r matches Some(s) ==> s.number() == value,
            r is None <==> (forall|s: Self| s.number() != value),
    {
        if value == 0 {
            assert(ValidatePeerStatus::CreationUnknown.number() == value);
            Some(ValidatePeerStatus::CreationUnknown)
        } else if value == 1 {
            assert(ValidatePeerStatus::Valid.number() == value);
            Some(ValidatePeerStatus::Valid)
        } else if value == 2 {
            assert(ValidatePeerStatus::Invalid.number() == value);
            Some(ValidatePeerStatus::Invalid)
        } else {
            assert forall|s: Self| s.number() != value by {
                match s {
                    ValidatePeerStatus::CreationUnknown => {},
                    ValidatePeerStatus::Valid => {},
                    ValidatePeerStatus::Invalid => {},
                }
            }
            None
        }
    }

    /// String value of the enum field names used in the ProtoBuf definition.
    pub fn as_str_name(&self) -> (r: &'static str)
        ensures
            r@ == self.name(),
    {
        match self {
            ValidatePeerStatus::CreationUnknown => "CREATION_UNKNOWN",
            ValidatePeerStatus::Valid => "VALID",
            ValidatePeerStatus::Invalid => "INVALID",
        }
    }

    /// Creates an enum from field names used in the ProtoBuf definition.
    pub fn from_str_name(value: &str) -> (r: Option<Self>)
        ensures
            r == Self::from_name(value@),
    {
        if same_text(value, "CREATION_UNKNOWN") {
            Some(ValidatePeerStatus::CreationUnknown)
        } else if same_text(value, "VALID") {
            Some(ValidatePeerStatus::Valid)
        } else if same_text(value, "INVALID") {
            Some(ValidatePeerStatus::Invalid)
        } else {
            None
        }
    }
}

/// Outcome of creating a peer. The zero value only marks "not set".
#[derive(Clone, Copy, Debug, PartialEq, Eq, Hash, PartialOrd, Ord, Structural)]
pub enum CreatePeerStatus {
    ValidationUnknown,
    Created,
    Failed,
}

impl CreatePeerStatus {
    /// The name of the value in the schema.
    pub open spec fn name(self) -> Seq<char> {
        match self {
            CreatePeerStatus::ValidationUnknown => "VALIDATION_UNKNOWN"@,
            CreatePeerStatus::Created => "CREATED"@,
            CreatePeerStatus::Failed => "FAILED"@,
        }
    }

    /// The integer that stands for the value on the wire.
    pub open spec fn number(self) -> i32 {
        match self {
            CreatePeerStatus::ValidationUnknown => 0,
            CreatePeerStatus::Created => 1,
            CreatePeerStatus::Failed => 2,
        }
    }

    /// The three names differ from one another.
    pub proof fn lemma_names_distinct()
        ensures
            "VALIDATION_UNKNOWN"@ != "CREATED"@,
            "VALIDATION_UNKNOWN"@ != "FAILED"@,
            "CREATED"@ != "FAILED"@,
    {
        reveal_strlit("VALIDATION_UNKNOWN");
        reveal_strlit("CREATED");
        reveal_strlit("FAILED");
        assert("CREATED"@[0] != "FAILED"@[0]);
        assert("VALIDATION_UNKNOWN"@[0] != "FAILED"@[0]);
        assert("CREATED"@[0] != "VALIDATION_UNKNOWN"@[0]);
    }

    /// The value whose schema name is `n`, if any.
    pub open spec fn from_name(n: Seq<char>) -> Option<Self> {
        if n == "VALIDATION_UNKNOWN"@ {
            Some(CreatePeerStatus::ValidationUnknown)
        } else if n == "CREATED"@ {
            Some(CreatePeerStatus::Created)
        } else if n == "FAILED"@ {
            Some(CreatePeerStatus::Failed)
        } else {
            None
        }
    }

    /// Each value's name reads back as that value, and a string that is no
    /// value's name reads back as no value.
    pub proof fn lemma_name_round_trip(s: Self, n: Seq<char>)
        ensures
            Self::from_name(s.name()) == Some(s),
            Self::from_name(n) is None <==> (forall|t: Self| t.name() != n),
            Self::from_name(n) matches Some(t) ==> t.name() == n,
    {
        Self::lemma_names_distinct();
        assert(Self::from_name(s.name()) == Some(s)) by {
            match s {
                Self::ValidationUnknown => {},
                Self::Created => {},
                Self::Failed => {},
            }
        }
        if let Some(t) = Self::from_name(n) {
            assert(t.name() == n);
        }
        if Self::from_name(n) is None {
            assert forall|t: Self| t.name() != n by {
                match t {
                    CreatePeerStatus::ValidationUnknown => {},
                    CreatePeerStatus::Created => {},
                    CreatePeerStatus::Failed => {},
                }
            }
        }
    }

    /// Whether `value` is the number of a value.
    pub fn is_valid(value: i32) -> (r: bool)
        ensures
            r == (exists|s: Self| s.number() == value),
    {
        if 0 <= value && value <= 2 {
            proof {
                let s = if value == 0 {
                    CreatePeerStatus::ValidationUnknown
                } else if value == 1 {
                    CreatePeerStatus::Created
                } else {
                    CreatePeerStatus::Failed
                };
                assert(s.number() == value);
            }
            true
        } else {
            assert forall|s: Self| s.number() != value by {
                match s {
                    CreatePeerStatus::ValidationUnknown => {},
                    CreatePeerStatus::Created => {},
                    CreatePeerStatus::Failed => {},
                }
            }
            false
        }
    }

    /// The value whose number is `value`, if any; a number that names no
    /// value gives none.
    pub fn from_i32(value: i32) -> (r: Option<Self>)
        ensures
            r matches Some(s) ==> s.number() == value,
            r is None <==> (forall|s: Self| s.number() != value),
    {
        if value == 0 {
            assert(CreatePeerStatus::ValidationUnknown.number() == value);
            Some(CreatePeerStatus::ValidationUnknown)
        } else if value == 1 {
            assert(CreatePeerStatus::Created.number() == value);
            Some(CreatePeerStatus::Created)
        } else if value == 2 {
            assert(CreatePeerStatus::Failed.number() == value);
            Some(CreatePeerStatus::Failed)
        } else {
            assert forall|s: Self| s.number() != value by {
                match s {
                    CreatePeerStatus::ValidationUnknown => {},
                    CreatePeerStatus::Created => {},
                    CreatePeerStatus::Failed => {},
                }
            }
            None
        }
    }

    /// String value of the enum field names used in the ProtoBuf definition.
    pub fn as_str_name(&self) -> (r: &'static str)
        ensures
            r@ == self.name(),
    {
        match self {
            CreatePeerStatus::ValidationUnknown => "VALIDATION_UNKNOWN",
            CreatePeerStatus::Created => "CREATED",
            CreatePeerStatus::Failed => "FAILED",
        }
    }

    /// Creates an enum from field names used in the ProtoBuf definition.
    pub fn from_str_name(value: &str) -> (r: Option<Self>)
        ensures
            r == Self::from_name(value@),
    {
        if same_text(value, "VALIDATION_UNKNOWN") {
            Some(CreatePeerStatus::ValidationUnknown)
        } else if same_text(value, "CREATED") {
            Some(CreatePeerStatus::Created)
        } else if same_text(value, "FAILED") {
            Some(CreatePeerStatus::Failed)
        } else {
            None
        }
    }
}

} // verus!
