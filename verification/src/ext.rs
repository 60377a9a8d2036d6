//! The trusted boundary to the outside crates: the UUID parser and the
//! neighbors' outbound channels. Verus believes the contracts here; each doc
//! comment names the outside function relied on.

use vstd::prelude::*;

verus! {

/// crossbeam's channel sender, declared so that neighbor handles can stand
/// in fields and signatures; its values are opaque to the verifier.
#[verifier::external_type_specification]
#[verifier::external_body]
#[verifier::reject_recursive_types(T)]
pub struct ExSender<T>(crossbeam::channel::Sender<T>);

/// What the UUID parser yields on the given text: nothing, or the parsed
/// identifier's 128-bit value. A function of the bytes alone.
pub uninterp spec fn uuid_of(s: Seq<u8>) -> Option<u128>;

/// Relies on uuid::Uuid::parse_str, with str::from_utf8 to read the bytes
/// and Uuid::as_u128 to take the parsed value: whether text names a UUID,
/// and which one, depends on the text alone; text that is not UTF-8 names
/// none.
#[verifier::external_body]
pub fn parse_uuid(id: &Vec<u8>) -> (r: Option<u128>)
    ensures
        r == uuid_of(id@),
{
    match core::str::from_utf8(id) {
        Ok(text) => match uuid::Uuid::parse_str(text) {
            Ok(u) => Some(u.as_u128()),
            Err(_) => None,
        },
        Err(_) => None,
    }
}

/// Relies on crossbeam::channel::Sender::try_send: it never blocks; it
/// fails only when the channel's buffer is full or the channel is
/// disconnected, and either way the undelivered fragment comes back
/// unchanged; on success it returns nothing.
#[verifier::external_body]
pub fn send_fragment(
    handle: &crossbeam::channel::Sender<crate::assembler::Fragment>,
    f: crate::assembler::Fragment,
) -> (r: Result<(), crate::routing::DeliveryError>)
    ensures
        match r {
            Ok(()) => true,
            Err(e) => match e {
                crate::routing::DeliveryError::Full { fragment } => fragment == f,
                crate::routing::DeliveryError::Disconnected { fragment } => fragment == f,
            },
        },
{
    match handle.try_send(f) {
        Ok(()) => Ok(()),
        Err(crossbeam::channel::TrySendError::Full(g)) => Err(
            crate::routing::DeliveryError::Full { fragment: g },
        ),
        Err(crossbeam::channel::TrySendError::Disconnected(g)) => Err(
            crate::routing::DeliveryError::Disconnected { fragment: g },
        ),
    }
}

} // verus!
