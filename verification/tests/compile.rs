use h3_hrx::compile::{config, num, workers, Cfg, Compiler, Number, Outside};

/// A double, as its seventeen significant digits say it.
fn number(v: f64) -> Number {
    if v.is_nan() {
        return Number::Nan { negative: v.is_sign_negative() };
    }
    if v.is_infinite() {
        return Number::Infinite { negative: v < 0.0 };
    }
    let negative = v.is_sign_negative();
    if v == 0.0 {
        return Number::Finite { negative, digits: 0, exponent: 0 };
    }
    let spelled = format!("{:.16e}", v.abs());
    let (mantissa, exponent) = spelled.split_once('e').unwrap();
    let digits: String = mantissa.chars().filter(|c| *c != '.').collect();
    Number::Finite {
        negative,
        digits: digits.parse().unwrap(),
        exponent: exponent.parse().unwrap(),
    }
}

fn found() -> Outside {
    Outside { source: true, library: Ok(()) }
}

#[test]
fn a_key_given_twice_is_refused_rather_than_silently_dropped() {
    let one: Cfg = vec![
        ("h3.gemm.k_size".into(), "2048".into()),
        ("h3.gemm.n_size".into(), "4096".into()),
    ];
    assert_eq!(config("gemm", &one).unwrap().len(), 2);
    // the map would keep 4096 and lose 2048, in the argv and in the cache tag alike
    let twice: Cfg = vec![
        ("h3.gemm.k_size".into(), "2048".into()),
        ("h3.gemm.k_size".into(), "4096".into()),
    ];
    let error = config("gemm", &twice).unwrap_err();
    assert_eq!(
        error.message(),
        "invalid configuration for gemm: a configuration key was given twice"
    );
}

#[test]
fn the_order_of_a_configuration_is_not_observable() {
    let a: Cfg = vec![("b".into(), "2".into()), ("a".into(), "1".into())];
    let b: Cfg = vec![("a".into(), "1".into()), ("b".into(), "2".into())];
    let spell = |cfg: &Cfg| config("k", cfg).unwrap().items().clone();
    assert_eq!(spell(&a), spell(&b));
    assert_eq!(spell(&a)[0], ("a".to_string(), "1".to_string()));
}

#[allow(clippy::excessive_precision)]
#[test]
fn num_matches_printf_percent_17g() {
    // Every answer here is printf("%.17g") of the same double.
    for (value, want) in [
        (0.0f64, "0"),
        (-0.0, "-0"),
        (1.0, "1"),
        (-1.0, "-1"),
        (0.5, "0.5"),
        (0.125, "0.125"),
        (2.0, "2"),
        (100.0, "100"),
        (1e-5, "1.0000000000000001e-05"),
        (1e-6, "9.9999999999999995e-07"),
        (1e-4, "0.0001"),
        (1e17, "1e+17"), // exponent == precision: the %e form takes over
        (1e18, "1e+18"),
        (1e16, "10000000000000000"), // one below it, and %f still wins
        (0.0625, "0.0625"),
        (0.088388347648318447, "0.088388347648318447"),
        (3.0517578125e-05, "3.0517578125e-05"),
        (0.0078125, "0.0078125"),
        (std::f64::consts::FRAC_1_SQRT_2, "0.70710678118654757"),
        (1e-30, "1.0000000000000001e-30"),
        (1e30, "1e+30"),
        (123456789.0, "123456789"),
    ] {
        assert_eq!(num(number(value)), want, "{value}");
    }
    assert_eq!(num(number(f64::INFINITY)), "inf");
    assert_eq!(num(number(f64::NEG_INFINITY)), "-inf");
    assert_eq!(num(Number::Nan { negative: false }), "nan");
}

#[test]
fn a_failed_batch_still_builds_the_requests_behind_it() {
    let mut compiler = Compiler::new(None, String::new());
    let cfg: Cfg = vec![
        ("h3.gn_silu_f16.channels".into(), "128".into()),
        ("h3.gn_silu_f16.groups".into(), "32".into()),
        ("h3.gn_silu_f16.plane".into(), "64".into()),
        ("h3.gn_silu_f16.rows_bound".into(), "64".into()),
        ("h3.gn_silu_f16.eps".into(), num(number(1e-5))),
    ];
    let doomed = compiler
        .get("gfx1151", "gn_silu_f16", "h3_no_such_export", &cfg, &found())
        .expect("a request is recorded without being built");
    let wanted = compiler
        .get("gfx1151", "gn_silu_f16", "h3_gn_silu_f16", &cfg, &found())
        .expect("a request is recorded without being built");
    assert_eq!(compiler.outstanding(), vec![0, 1]);
    assert_eq!(compiler.built(wanted), None);

    let no_export = || Err("no export h3_no_such_export".to_string());
    let message = compiler.flush(&[no_export(), Ok(7)]).unwrap_err().message();
    assert!(message.contains("h3_no_such_export"), "{message}");
    // the one behind it builds, and the failure is still the failure it was
    assert_eq!(compiler.resolve(wanted, &[no_export()]).unwrap(), 7);
    assert_eq!(compiler.outstanding(), vec![0]);
    let again = compiler.resolve(doomed, &[no_export()]).unwrap_err().message();
    assert!(again.contains("h3_no_such_export"), "{again}");
    // and it is built by the batch it does build in
    assert_eq!(compiler.resolve(doomed, &[Ok(9)]).unwrap(), 9);
    assert!(compiler.outstanding().is_empty());
}

#[test]
fn a_kernel_asked_for_twice_is_one_request() {
    let mut compiler = Compiler::new(None, String::new());
    let cfg: Cfg = vec![("a".into(), "1".into()), ("b".into(), "2".into())];
    let other: Cfg = vec![("b".into(), "2".into()), ("a".into(), "1".into())];
    let first = compiler.get("gfx1151", "k", "h3_k", &cfg, &found()).unwrap();
    let second = compiler.get("gfx1151", "k", "h3_k", &other, &found()).unwrap();
    assert_eq!(first, second);
    assert_eq!(compiler.outstanding().len(), 1);
}

#[test]
fn cached_modules_reject_a_different_stream_target() {
    let mut compiler = Compiler::new(None, String::new());
    compiler.get("gfx1151", "prepare_i8_family", "h3_a", &vec![], &found()).unwrap();
    let error = match compiler.get("gfx1100", "prepare_i8_family", "h3_a", &vec![], &found()) {
        Err(error) => error,
        Ok(_) => panic!("a cached module concealed a target mismatch"),
    };
    assert!(error.message().contains("differs from stream target"));
    assert_eq!(
        error.message(),
        "compiler target gfx1151 differs from stream target gfx1100"
    );
}

#[test]
fn a_missing_source_names_itself() {
    let mut c = Compiler::new(Some("libloomc.so".into()), "kernels".into());
    let outside = Outside { source: false, library: Ok(()) };
    let message = c.tag("nope", "s", &vec![], &outside).unwrap_err().message();
    assert!(message.contains("nope.loom"), "{message}");
    assert_eq!(message, "missing kernel source kernels/nope.loom");
}

#[test]
fn a_missing_compiler_names_itself() {
    let mut c = Compiler::new(Some("definitely-not-on-path-h3".into()), "kernels".into());
    let outside = Outside {
        source: true,
        library: Err("cannot load definitely-not-on-path-h3".into()),
    };
    let message = c.tag("k", "s", &vec![], &outside).unwrap_err().message();
    assert!(message.contains("definitely-not-on-path-h3"), "{message}");
}

#[test]
fn a_handful_of_workers_at_most() {
    assert_eq!(workers(None), 1);
    assert_eq!(workers(Some(4)), 4);
    assert_eq!(workers(Some(64)), 8);
}

#[test]
fn a_source_that_was_read_is_remembered_where_the_compiler_did_not_open() {
    let mut c = Compiler::new(None, "kernels".into());
    let shut = Outside { source: true, library: Err("no library".into()) };
    assert!(c.get("gfx1151", "k", "h3_k", &vec![], &shut).is_err());
    assert_eq!(c.target(), None);
    // the file may be gone by then
    let gone = || Outside { source: false, library: Ok(()) };
    assert!(c.get("gfx1151", "k", "h3_k", &vec![], &gone()).is_ok());
    // a request for another device is refused, and its source is remembered too
    assert!(c.get("gfx1100", "other", "h3_other", &vec![], &found()).is_err());
    assert!(c.get("gfx1151", "other", "h3_other", &vec![], &gone()).is_ok());
    // one that was never found is not
    assert!(c.get("gfx1151", "third", "h3_third", &vec![], &gone()).is_err());
}

#[test]
fn a_kernel_asked_for_again_is_the_one_already_built() {
    let mut c = Compiler::new(None, String::new());
    let cfg: Cfg = vec![("a".into(), "1".into()), ("b".into(), "2".into())];
    let other: Cfg = vec![("b".into(), "2".into()), ("a".into(), "1".into())];
    let first = c.get("gfx1151", "k", "h3_k", &cfg, &found()).unwrap();
    assert_eq!(c.built(first), None);
    c.flush(&[Ok(5)]).unwrap();
    let again = c.get("gfx1151", "k", "h3_k", &other, &found()).unwrap();
    assert_eq!((again, c.built(again)), (first, Some(5)));
    assert!(c.outstanding().is_empty());
}

#[test]
fn a_kernel_asked_for_twice_before_a_batch_is_built_once() {
    let mut c = Compiler::new(None, String::new());
    let cfg: Cfg = vec![("a".into(), "1".into()), ("b".into(), "2".into())];
    let other: Cfg = vec![("b".into(), "2".into()), ("a".into(), "1".into())];
    let first = c.get("gfx1151", "k", "h3_k", &cfg, &found()).unwrap();
    let again = c.get("gfx1151", "k", "h3_k", &other, &found()).unwrap();
    assert_eq!((c.built(first), c.built(again)), (None, None));
    assert_eq!(c.outstanding(), vec![0]);
    c.flush(&[Ok(5)]).unwrap();
    assert_eq!((c.built(first), c.built(again)), (Some(5), Some(5)));
}
