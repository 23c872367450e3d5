use cshim::stubs::dlclose;
use cshim::stubs::dlerror;
use cshim::stubs::dlopen;
use cshim::stubs::dlsym;
use cshim::stubs::__tolower;
use cshim::stubs::__toupper;
use cshim::ShimError;

#[test]
fn dynamic_loading_stubs_fail_loudly() {
    assert_eq!(dlopen(b"libanything.so", 2), Err(ShimError::UnsupportedCapability));
    assert_eq!(dlclose(1), Err(ShimError::UnsupportedCapability));
    assert_eq!(dlerror(), Err(ShimError::UnsupportedCapability));
    assert_eq!(dlsym(1, b"symbol"), Err(ShimError::UnsupportedCapability));
}

#[test]
fn case_conversion_stubs_fail_loudly() {
    assert_eq!(__tolower(65), Err(ShimError::UnsupportedCapability));
    assert_eq!(__toupper(97), Err(ShimError::UnsupportedCapability));
}

#[test]
fn stub_signal_is_distinct_from_resource_exhaustion() {
    let unsupported = dlopen(b"x", 0).unwrap_err();
    assert_ne!(unsupported, ShimError::OutOfMemory);
    assert_eq!(unsupported, ShimError::UnsupportedCapability);
}
