use vstd::prelude::*;

verus! {

/// Why a packet or a header was turned away.
#[derive(Debug, Clone, Copy, PartialEq, Eq, Structural)]
pub enum ErrorKind {
    /// The packet carries a protocol version this library does not speak.
    Unsupported,
    /// The packet (or the value) breaks a rule of the protocol: an unknown source, a replayed or
    /// outdated index, a wrong authentication tag, a field that does not fit its place.
    Invalid,
    /// The bytes ended before everything that was announced had been read.
    Other,
}

/// A result whose byte vector is taken by its contents.
pub open spec fn bytes_result(r: Result<Vec<u8>, ErrorKind>) -> Result<Seq<u8>, ErrorKind> {
    match r {
        Ok(v) => Ok(v@),
        Err(e) => Err(e),
    }
}

/// Taking a byte vector by its contents changes neither success nor the kind of an error.
pub proof fn law_result_is_kept(bytes: Vec<u8>, e: ErrorKind)
    ensures
        bytes_result(Ok(bytes)) == Ok::<Seq<u8>, ErrorKind>(bytes@),
        bytes_result(Err(e)) == Err::<Seq<u8>, ErrorKind>(e),
{
}

} // verus!
