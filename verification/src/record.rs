//! The decoded record type produced by the pipeline.

use vstd::prelude::*;

verus! {

/// A decoded ticket purchase: the typed result of interpreting a matching
/// event's payload under the layout in [`crate::codec`].
///
/// `receiver` is a 32-byte identifier (see [`TicketBought::wf`]); the three
/// integers are fixed-width quantities; `coin_type` is a text label.
#[derive(Debug, PartialEq, Eq)]
pub struct TicketBought {
    pub receiver: Vec<u8>,
    pub spin_id: u64,
    pub price: u64,
    pub amount: u64,
    pub coin_type: String,
}

/// The mathematical value of a [`TicketBought`] record.
pub ghost struct TicketView {
    pub receiver: Seq<u8>,
    pub spin_id: u64,
    pub price: u64,
    pub amount: u64,
    pub coin_type: Seq<char>,
}

impl View for TicketBought {
    type V = TicketView;

    open spec fn view(&self) -> TicketView {
        TicketView {
            receiver: self.receiver@,
            spin_id: self.spin_id,
            price: self.price,
            amount: self.amount,
            coin_type: self.coin_type@,
        }
    }
}

impl TicketView {
    /// Well-formedness: the identifier is exactly 32 bytes.
    pub open spec fn wf(self) -> bool {
        self.receiver.len() == 32
    }
}

impl TicketBought {
    /// Well-formedness: the identifier is exactly 32 bytes.  Every record
    /// built by the decoder satisfies this.
    pub open spec fn wf(self) -> bool {
        self@.wf()
    }
}

} // verus!
