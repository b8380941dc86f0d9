use isomfolio_core::addon::ConfigFieldKind;
use isomfolio_core::layout::resolve_cols;
use isomfolio_core::models::{AppError, Flag, FlagSelection, RatingFilter};

#[test]
fn grid_wraps_instead_of_one_long_row() {
    for n in 1..=20 {
        let cols = resolve_cols(n);
        assert!(cols >= 1 && cols <= n.max(1));
        let rows = n.div_ceil(cols);
        if n > 2 {
            assert!(rows >= 2, "n={n} cols={cols} rows={rows}");
        }
    }
}

#[test]
fn grid_column_counts() {
    let got: Vec<usize> = (0..12).map(resolve_cols).collect();
    assert_eq!(got, vec![1, 1, 2, 2, 2, 3, 3, 3, 3, 3, 4, 4]);
}

#[test]
fn flag_codes_round_trip() {
    for f in [Flag::Unflagged, Flag::Pick, Flag::Reject] {
        assert_eq!(Flag::from_i64(f.code()), f);
    }
    assert_eq!(Flag::from_i64(42), Flag::Unflagged);
}

#[test]
fn flag_selection_filters() {
    let none = FlagSelection::default();
    assert!(none.shows_all() && !none.is_active());
    let picks = none.toggled(Flag::Pick);
    assert!(picks.is_active() && picks.allows(Flag::Pick) && !picks.allows(Flag::Reject));
    assert_eq!(picks.toggled(Flag::Pick), none);
    let all = picks.toggled(Flag::Unflagged).toggled(Flag::Reject);
    assert!(all.shows_all());
    assert_eq!(picks.toggled(Flag::Unflagged).allowed_codes(), vec![Flag::Pick.code(), Flag::Unflagged.code()]);
}

#[test]
fn rating_filter_activity() {
    assert!(!RatingFilter::Any.is_active());
    assert!(RatingFilter::AtLeast(3).is_active());
    assert!(RatingFilter::Unrated.is_active());
}

#[test]
fn error_messages() {
    assert_eq!(AppError::Thumbnail("f1".into(), "boom".into()).message(), "thumbnail error for f1: boom");
    assert_eq!(AppError::Db("locked".into()).message(), "database error: locked");
}

#[test]
fn config_fields_default_to_text() {
    assert_eq!(ConfigFieldKind::default(), ConfigFieldKind::Text);
}
