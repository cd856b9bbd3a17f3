use qdb::error::KernelError;
use qdb::evm::{active_period, default_eac_method, plan_evm, EacMethod};

fn ends(v: &[&str]) -> Vec<String> {
    v.iter().map(|s| s.to_string()).collect()
}

#[test]
fn default_method_is_cpi() {
    assert_eq!(default_eac_method(), "cpi");
}

#[test]
fn active_period_is_the_last_one_ended_by_the_data_date() {
    let e = ends(&["2026-01-31", "2026-02-28", "2026-03-31"]);
    assert_eq!(active_period(&e, "2026-03-15"), 1);
    assert_eq!(active_period(&e, "2026-02-28"), 1);
    assert_eq!(active_period(&e, "2026-12-31"), 2);
    assert_eq!(active_period(&e, "2025-12-31"), 0);
    // compared as text, not as dates
    let odd = ends(&["2026-01-31", "2026-1-15"]);
    assert_eq!(active_period(&odd, "2026-01-20"), 0);
    assert_eq!(active_period(&odd, "2026-2"), 1);
}

#[test]
fn text_order_matches_rust_str_order() {
    for (a, b) in [("a", "b"), ("ab", "a"), ("", "x"), ("é", "z"), ("2026-02", "2026-10"), ("same", "same")] {
        assert_eq!(qdb::text::text_le(a, b), a <= b);
        assert_eq!(qdb::text::text_le(b, a), b <= a);
        assert_eq!(qdb::text::same_text(a, b), a == b);
    }
}

#[test]
fn plan_checks_periods_then_method() {
    let e = ends(&["2026-01-31", "2026-02-28"]);
    assert_eq!(plan_evm(&e, "2026-02-10", "cpi", false), Ok((0, EacMethod::Cpi)));
    assert_eq!(plan_evm(&e, "2026-03-01", "spi", false), Ok((1, EacMethod::Spi)));
    assert_eq!(plan_evm(&e, "2026-03-01", "remaining", false), Ok((1, EacMethod::Remaining)));
    assert_eq!(plan_evm(&e, "2026-03-01", "manual", true), Ok((1, EacMethod::Manual)));
    assert_eq!(
        plan_evm(&e, "2026-03-01", "manual", false),
        Err(KernelError::InvalidInput("manual_eac required when eac_method = manual".to_string()))
    );
    assert_eq!(
        plan_evm(&e, "2026-03-01", "magic", true),
        Err(KernelError::InvalidInput("unknown eac_method 'magic'".to_string()))
    );
    assert_eq!(
        plan_evm(&Vec::new(), "2026-03-01", "magic", true),
        Err(KernelError::InvalidInput("periods must not be empty".to_string()))
    );
}
