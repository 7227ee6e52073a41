use vstd::prelude::*;

verus! {

#[non_exhaustive]
#[derive(Debug, PartialEq, Eq, Structural, Clone, Copy)]
pub enum UARTError {
    NonEmptyLSR,
}

/// Whether the UART may take a byte, judged from the value read from its line status
/// register: it may when a bit of `lsr_empty_mask` is set there.
pub fn transmitter_ready(lsr_value: u8, lsr_empty_mask: u8) -> (r: Result<(), UARTError>)
    ensures
        (lsr_value & lsr_empty_mask) != 0 ==> r == Ok::<(), UARTError>(()),
        (lsr_value & lsr_empty_mask) == 0 ==> r == Err::<(), UARTError>(UARTError::NonEmptyLSR),
{
    let is_lsr_empty = (lsr_value & lsr_empty_mask) != 0;
    if is_lsr_empty {
        Ok(())
    } else {
        Err(UARTError::NonEmptyLSR)
    }
}

} // verus!
