use vstd::prelude::*;

verus! {

/// Identity of an account that can hold a balance; equality is exact on the address.
#[derive(Clone, Debug)]
pub struct ParticipantId {
    pub address: String,
}

impl View for ParticipantId {
    type V = Seq<char>;

    open spec fn view(&self) -> Seq<char> {
        self.address@
    }
}

impl ParticipantId {
    pub fn new(address: String) -> (r: ParticipantId)
        ensures
            r@ == address@,
    {
        ParticipantId { address }
    }

    /// Exact comparison of two identities.
    pub fn same_as(&self, other: &ParticipantId) -> (r: bool)
        ensures
            r == (self@ == other@),
    {
        self.address == other.address
    }

    /// A fresh copy of this identity.
    pub fn duplicate(&self) -> (r: ParticipantId)
        ensures
            r@ == self@,
    {
        ParticipantId { address: self.address.clone() }
    }
}

} // verus!
