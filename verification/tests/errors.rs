use h3_hrx::error::{code, invalid, other, Error};
use h3_hrx::{checkpoint, compile, hrx, weights};

#[test]
fn the_boundary_codes_are_the_ones_the_abi_promises() {
    assert_eq!(code(&Error::Cancelled), 2);
    assert_eq!(code(&Error::Invalid("no such shape".into())), 64);
    assert_eq!(code(&Error::Other("a kernel failed".into())), 1);
    assert_eq!(
        code(&Error::Weights(weights::Error::Device("out of memory".into()))),
        1
    );
}

#[test]
fn every_layer_converts_without_losing_its_message() {
    let e = Error::Weights(weights::Error::NoRecipe("h3.final.out.w".into()));
    assert_eq!(e.message(), "no recipe for tensor h3.final.out.w");
    let e = Error::Compile(compile::Error::Io("no space".into()));
    assert_eq!(e.message(), "no space");
    let e = Error::Checkpoint(checkpoint::Error::Missing { name: "a".into(), path: "b".into() });
    assert_eq!(e.message(), "missing tensor a in b");
    assert_eq!(Error::Runtime(hrx::Error("lost".into())).message(), "lost");
    assert_eq!(Error::Cancelled.message(), "cancelled");
}

#[test]
fn a_mistake_and_a_failure_are_told_apart() {
    assert!(matches!(invalid::<()>("bad".into()), Err(Error::Invalid(m)) if m == "bad"));
    assert!(matches!(other::<()>("broke".into()), Err(Error::Other(m)) if m == "broke"));
}

#[test]
fn a_runtime_failure_says_what_was_asked() {
    assert_eq!(hrx::failure("hrx_buffer_allocate", Some("no memory")).0, "hrx_buffer_allocate: no memory");
    assert_eq!(hrx::failure("sync", None).0, "sync: unknown error");
}
