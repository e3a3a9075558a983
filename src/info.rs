use vstd::prelude::*;

verus! {

/// Identity information that can be set by users.
#[derive(Clone, Debug, Default, PartialEq, Eq)]
pub struct IdentityInfo {
    /// A reasonable display name for the controller of the account.
    pub display: Vec<u8>,
    /// The full legal name in the local jurisdiction of the entity.
    pub legal: Vec<u8>,
    /// A representative website field.
    pub web: Vec<u8>,
    /// An email address.
    pub email: Vec<u8>,
}

/// The contents of an [`IdentityInfo`], field by field.
pub struct IdentityInfoView {
    pub display: Seq<u8>,
    pub legal: Seq<u8>,
    pub web: Seq<u8>,
    pub email: Seq<u8>,
}

impl View for IdentityInfo {
    type V = IdentityInfoView;

    open spec fn view(&self) -> IdentityInfoView {
        IdentityInfoView {
            display: self.display@,
            legal: self.legal@,
            web: self.web@,
            email: self.email@,
        }
    }
}

/// Number of bytes of the SCALE compact encoding of a length `n < 2^32`.
pub open spec fn compact_len(n: nat) -> nat {
    if n < 0x40 {
        1
    } else if n < 0x4000 {
        2
    } else if n < 0x4000_0000 {
        4
    } else {
        5
    }
}

/// Number of bytes of the SCALE encoding of a byte string of length `n`:
/// its compact length prefix, then the bytes.
pub open spec fn bytes_encoded_len(n: nat) -> nat {
    compact_len(n) + n
}

impl IdentityInfoView {
    /// Each field is short enough to be SCALE-encoded.
    pub open spec fn encodable(self) -> bool {
        &&& self.display.len() <= u32::MAX
        &&& self.legal.len() <= u32::MAX
        &&& self.web.len() <= u32::MAX
        &&& self.email.len() <= u32::MAX
    }

    /// No field is longer than `max` bytes.
    pub open spec fn fields_within(self, max: nat) -> bool {
        &&& self.display.len() <= max
        &&& self.legal.len() <= max
        &&& self.web.len() <= max
        &&& self.email.len() <= max
    }

    /// Length of the SCALE encoding of the four fields, in order.
    pub open spec fn encoded_len(self) -> nat {
        bytes_encoded_len(self.display.len()) + bytes_encoded_len(self.legal.len())
            + bytes_encoded_len(self.web.len()) + bytes_encoded_len(self.email.len())
    }

    /// The encoded length as a `u32`, saturated at `u32::MAX`.
    pub open spec fn encoded_size(self) -> nat {
        if self.encoded_len() > u32::MAX {
            u32::MAX as nat
        } else {
            self.encoded_len()
        }
    }
}

/// Relies on parity_scale_codec's `Encode` for `Vec<u8>`: a compact length
/// prefix followed by the bytes themselves. It panics beyond `u32::MAX`
/// elements, hence the precondition.
#[verifier::external_body]
fn scale_encoded_len(bytes: &Vec<u8>) -> (r: usize)
    requires
        bytes@.len() <= u32::MAX,
    ensures
        r == bytes_encoded_len(bytes@.len()),
{
    parity_scale_codec::Encode::encode(bytes).len()
}

impl IdentityInfo {
    /// Get the encoded size of this identity info, saturated at `u32::MAX`.
    pub fn encoded_size(&self) -> (r: u32)
        requires
            self@.encodable(),
        ensures
            r == self@.encoded_size(),
    {
        let d = scale_encoded_len(&self.display) as u64;
        let l = scale_encoded_len(&self.legal) as u64;
        let w = scale_encoded_len(&self.web) as u64;
        let e = scale_encoded_len(&self.email) as u64;
        let total: u64 = d + l + w + e;
        if total > u32::MAX as u64 {
            u32::MAX
        } else {
            total as u32
        }
    }
}

} // verus!
