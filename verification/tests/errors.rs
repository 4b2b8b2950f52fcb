use plasma_ledger::abi_error;
use plasma_ledger::error;
use plasma_ledger::ovm_error;

#[test]
fn an_error_has_the_kind_it_was_made_of() {
    assert_eq!(*error::Error::new(error::ErrorKind::InvalidRange).kind(), error::ErrorKind::InvalidRange);
    assert_eq!(*error::Error::from(error::ErrorKind::Io).kind(), error::ErrorKind::Io);
    assert_eq!(*abi_error::Error::new(abi_error::ErrorKind::AbiDecode).kind(), abi_error::ErrorKind::AbiDecode);
    assert_eq!(*abi_error::Error::from(abi_error::ErrorKind::AbiDecode).kind(), abi_error::ErrorKind::AbiDecode);
    let e = ovm_error::Error::new(ovm_error::ErrorKind::Undecided);
    assert_eq!(*e.kind(), ovm_error::ErrorKind::Undecided);
    assert_eq!(e.cause(), None);
    let e: ovm_error::Error = ovm_error::ErrorKind::CannotDecide.into();
    assert_eq!(*e.kind(), ovm_error::ErrorKind::CannotDecide);
}

#[test]
fn lower_errors_are_wrapped_under_their_layer() {
    let e = ovm_error::Error::from(error::Error::new(error::ErrorKind::InvalidRange));
    assert_eq!(*e.kind(), ovm_error::ErrorKind::PlasmaDbError);
    assert_eq!(e.cause(), Some(error::ErrorKind::InvalidRange));
    let e = ovm_error::Error::from(abi_error::Error::new(abi_error::ErrorKind::AbiDecode));
    assert_eq!(*e.kind(), ovm_error::ErrorKind::AbiError);
    assert_eq!(e.cause(), None);
}

#[test]
fn kinds_have_their_messages() {
    assert_eq!(ovm_error::ErrorKind::Io.message(), "IO error");
    assert_eq!(ovm_error::ErrorKind::AbiDecode.message(), "ABI Decode error");
    assert_eq!(ovm_error::ErrorKind::AbiError.message(), "ABI error");
    assert_eq!(ovm_error::ErrorKind::PlasmaCoreError.message(), "Plasma Core error");
    assert_eq!(ovm_error::ErrorKind::PlasmaDbError.message(), "Plasma Db error");
    assert_eq!(ovm_error::ErrorKind::InvalidPreimage.message(), "Invalid Preimage");
    assert_eq!(ovm_error::ErrorKind::Undecided.message(), "Undecided");
    assert_eq!(ovm_error::ErrorKind::CannotDecide.message(), "CannotDecide");
    assert_eq!(abi_error::ErrorKind::AbiDecode.message(), "ABI Decode error");
    assert_eq!(error::ErrorKind::Io.message(), "IO error");
    assert_eq!(error::ErrorKind::InvalidRange.message(), "Invalid range");
    assert_eq!(error::ErrorKind::Malformed.message(), "Malformed range store");
}
