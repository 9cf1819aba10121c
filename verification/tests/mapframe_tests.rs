use pullauta::mapframe::{DPI, GROUND_METRES_PER_INCH};

fn dpi() -> f64 {
    DPI as f64
}

fn ground_metres_per_inch() -> f64 {
    GROUND_METRES_PER_INCH as f64
}

#[test]
fn px_per_metre_is_the_literal() {
    let px_per_metre = dpi() / ground_metres_per_inch();
    assert_eq!(px_per_metre.to_bits(), (600.0f64 / 254.0).to_bits());
}

/// Documents why two constants exist: swapping the fused constant into a call site that
/// multiplies first changes the rounding of some values.
#[test]
fn operator_order_is_preserved() {
    let px_per_metre = dpi() / ground_metres_per_inch();
    for (d, s) in [(3.0, 1.0), (1234.567, 1.0), (98765.4321, 2.0), (0.1, 0.5)] {
        assert_eq!(
            (d * dpi() / ground_metres_per_inch() / s).to_bits(),
            (d * 600.0 / 254.0 / s).to_bits()
        );
        assert_eq!(
            (d / dpi() * ground_metres_per_inch() * s).to_bits(),
            (d / 600.0 * 254.0 * s).to_bits()
        );
    }
    let any_differs = (1..1000).any(|i| {
        let d = i as f64 * 1.001;
        (d * dpi() / ground_metres_per_inch()).to_bits() != (d * px_per_metre).to_bits()
    });
    assert!(any_differs, "fused and unfused constants never differed");
}
