use h3_hrx::hrx::{failure, Buffer, ExportInfo, Extent, Gpu, Kernel};

fn kernel(bindings: u32, constants: u32) -> Kernel {
    let info = ExportInfo {
        flags: 0,
        constant_byte_length: constants,
        binding_count: bindings,
        parameter_count: 0,
    };
    Kernel::new(40, 2, info, "h3_kernel".to_string())
}

const ONE: Extent = Extent { x: 1, y: 1, z: 1 };

fn gpu() -> Gpu {
    Gpu::open(1, 10, 11).unwrap()
}

#[test]
fn a_machine_without_a_device_is_refused() {
    assert!(Gpu::open(1, 10, 11).is_ok());
    assert!(Gpu::open(0, 10, 11).is_err());
}

#[test]
fn a_slice_is_part_of_its_buffer() {
    let b = Buffer::new(7, 64);
    assert_eq!(b.bytes(), 64);
    let whole = b.binding();
    assert_eq!((whole.buffer, whole.offset, whole.length), (7, 0, 64));
    let part = b.slice(16, 32);
    assert_eq!((part.buffer, part.offset, part.length), (7, 16, 32));
}

#[test]
fn transfers_stay_inside_their_buffers_and_empty_ones_are_not_made() {
    let g = gpu();
    let b = Buffer::new(7, 64);
    let t = g.h2d_at(&b, 16, &[0; 48]).unwrap().unwrap();
    assert_eq!((t.buffer, t.offset, t.length), (7, 16, 48));
    assert!(g.h2d_at(&b, 17, &[0; 48]).is_err());
    assert_eq!(g.h2d(&b, &[]).unwrap(), None);
    assert_eq!(g.d2h(&b, 64).unwrap().unwrap().length, 64);
    assert!(g.d2h(&b, 65).is_err());
    let t = g.d2h_ref(b.slice(16, 32), 8).unwrap().unwrap();
    assert_eq!((t.offset, t.length), (16, 8));
    assert!(g.d2h_ref(b.slice(16, 32), 33).is_err());
}

#[test]
fn a_launch_packs_its_scalars_into_the_kernels_slots() {
    let g = gpu();
    let b = Buffer::new(7, 64);
    let d = g.dispatch(&kernel(1, 8), ONE, ONE, &[1, 0x0102_0304], &[b.binding()]).unwrap();
    assert_eq!((d.executable, d.ordinal), (40, 2));
    assert_eq!(d.constants, vec![1, 0, 0, 0, 4, 3, 2, 1]);
    assert_eq!(d.bindings, vec![b.binding()]);
    // a kernel whose slots are eight bytes wide takes each scalar widened
    let d = g.dispatch(&kernel(1, 16), ONE, ONE, &[1, 2], &[b.binding()]).unwrap();
    assert_eq!(d.constants, vec![1, 0, 0, 0, 0, 0, 0, 0, 2, 0, 0, 0, 0, 0, 0, 0]);
}

#[test]
fn a_launch_that_does_not_fit_its_kernel_is_refused() {
    let g = gpu();
    let b = Buffer::new(7, 64).binding();
    // another number of buffers
    assert!(g.dispatch(&kernel(2, 4), ONE, ONE, &[1], &[b]).is_err());
    // more constant bytes than a launch carries
    assert!(g.dispatch(&kernel(1, 260), ONE, ONE, &[1], &[b]).is_err());
    // constant bytes that are no multiple of the scalars
    assert!(g.dispatch(&kernel(1, 4), ONE, ONE, &[1, 2, 3], &[b]).is_err());
    // slots of a width there is no scalar of
    assert!(g.dispatch(&kernel(1, 12), ONE, ONE, &[1], &[b]).is_err());
    // constants and none to give
    assert!(g.dispatch(&kernel(1, 4), ONE, ONE, &[], &[b]).is_err());
    // and a kernel without constants takes none
    assert!(g.dispatch(&kernel(1, 0), ONE, ONE, &[], &[b]).unwrap().constants.is_empty());
}

#[test]
fn a_failure_keeps_the_drivers_words() {
    assert_eq!(failure("open", Some("no driver")).0, "open: no driver");
}
