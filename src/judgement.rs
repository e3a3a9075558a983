use vstd::prelude::*;

verus! {

/// A verifier's opinion on an identity.
#[derive(Clone, Copy, Debug, PartialEq, Eq, Structural)]
pub enum Judgement {
    /// The default value; no opinion is held.
    Unknown,
    /// The target is known and the identity is reasonable.
    Reasonable,
    /// The target is known and the identity is good.
    KnownGood,
    /// The target is known and the identity is erroneous.
    Erroneous,
    /// An erroneous identity may be corrected.
    LowQuality,
}

impl Judgement {
    /// A sticky judgement can only go away with the whole identity record.
    pub open spec fn spec_is_sticky(&self) -> bool {
        *self is KnownGood || *self is Erroneous
    }

    /// The judgement that the wire code `code` stands for, if any.
    pub open spec fn spec_from_code(code: u8) -> Option<Judgement> {
        if code == 0 {
            Some(Judgement::Unknown)
        } else if code == 1 {
            Some(Judgement::Reasonable)
        } else if code == 2 {
            Some(Judgement::KnownGood)
        } else if code == 3 {
            Some(Judgement::Erroneous)
        } else if code == 4 {
            Some(Judgement::LowQuality)
        } else {
            None
        }
    }

    /// Returns true if this judgement is sticky: it cannot be replaced, only
    /// removed together with the identity.
    #[verifier::when_used_as_spec(spec_is_sticky)]
    pub fn is_sticky(&self) -> (r: bool)
        ensures
            r == self.spec_is_sticky(),
    {
        match self {
            Judgement::KnownGood | Judgement::Erroneous => true,
            _ => false,
        }
    }

    /// Decodes a judgement from its wire code (0 = Unknown, 1 = Reasonable,
    /// 2 = KnownGood, 3 = Erroneous, 4 = LowQuality).
    pub fn from_code(code: u8) -> (r: Option<Judgement>)
        ensures
            r == Self::spec_from_code(code),
    {
        match code {
            0 => Some(Judgement::Unknown),
            1 => Some(Judgement::Reasonable),
            2 => Some(Judgement::KnownGood),
            3 => Some(Judgement::Erroneous),
            4 => Some(Judgement::LowQuality),
            _ => None,
        }
    }
}

} // verus!
