use raphtory::errors::GraphError;
use raphtory::prop::{Float32, Float64, Prop, PropType};
use raphtory::timeindex::TimeIndexEntry;
use raphtory::tprop::TProp;

#[test]
fn set_new_value_for_tprop_initialized_as_empty() {
    let mut tprop = TProp::Empty;
    tprop.set(1.into(), Prop::I32(10)).unwrap();

    assert_eq!(tprop.iter_t(), vec![(1, Prop::I32(10))]);
}

#[test]
fn every_new_update_to_the_same_prop_is_recorded_as_history() {
    let mut tprop = TProp::from(1.into(), "Pometry".into());
    tprop.set(2.into(), "Pometry Inc.".into()).unwrap();

    assert_eq!(
        tprop.iter_t(),
        vec![(1, "Pometry".into()), (2, "Pometry Inc.".into())]
    );
}

#[test]
fn new_update_with_the_same_time_to_a_prop_is_ignored() {
    let mut tprop = TProp::from(1.into(), "Pometry".into());
    tprop.set(1.into(), "Pometry Inc.".into()).unwrap();

    assert_eq!(tprop.iter_t(), vec![(1, "Pometry".into())]);
}

#[test]
fn updates_to_prop_can_be_iterated() {
    let tprop = TProp::default();

    assert_eq!(tprop.iter_t(), vec![]);

    let mut tprop = TProp::from(1.into(), "Pometry".into());
    tprop.set(2.into(), "Pometry Inc.".into()).unwrap();

    assert_eq!(
        tprop.iter_t(),
        vec![
            (1, Prop::Str("Pometry".into())),
            (2, Prop::Str("Pometry Inc.".into()))
        ]
    );

    let mut tprop = TProp::from(1.into(), Prop::I32(2022));
    tprop.set(2.into(), Prop::I32(2023)).unwrap();

    assert_eq!(
        tprop.iter_t(),
        vec![(1, Prop::I32(2022)), (2, Prop::I32(2023))]
    );

    let mut tprop = TProp::from(1.into(), Prop::I64(2022));
    tprop.set(2.into(), Prop::I64(2023)).unwrap();

    assert_eq!(
        tprop.iter_t(),
        vec![(1, Prop::I64(2022)), (2, Prop::I64(2023))]
    );

    let mut tprop = TProp::from(1.into(), f32_prop(10.0));
    tprop.set(2.into(), f32_prop(11.0)).unwrap();

    assert_eq!(
        tprop.iter_t(),
        vec![(1, f32_prop(10.0)), (2, f32_prop(11.0))]
    );

    let mut tprop = TProp::from(1.into(), f64_prop(10.0));
    tprop.set(2.into(), f64_prop(11.0)).unwrap();

    assert_eq!(
        tprop.iter_t(),
        vec![(1, f64_prop(10.0)), (2, f64_prop(11.0))]
    );

    let mut tprop = TProp::from(1.into(), Prop::U32(1));
    tprop.set(2.into(), Prop::U32(2)).unwrap();

    assert_eq!(tprop.iter_t(), vec![(1, Prop::U32(1)), (2, Prop::U32(2))]);

    let mut tprop = TProp::from(1.into(), Prop::U64(1));
    tprop.set(2.into(), Prop::U64(2)).unwrap();

    assert_eq!(tprop.iter_t(), vec![(1, Prop::U64(1)), (2, Prop::U64(2))]);

    let mut tprop = TProp::from(1.into(), Prop::U8(1));
    tprop.set(2.into(), Prop::U8(2)).unwrap();

    assert_eq!(tprop.iter_t(), vec![(1, Prop::U8(1)), (2, Prop::U8(2))]);

    let mut tprop = TProp::from(1.into(), Prop::U16(1));
    tprop.set(2.into(), Prop::U16(2)).unwrap();

    assert_eq!(tprop.iter_t(), vec![(1, Prop::U16(1)), (2, Prop::U16(2))]);

    let mut tprop = TProp::from(1.into(), Prop::Bool(true));
    tprop.set(2.into(), Prop::Bool(true)).unwrap();

    assert_eq!(
        tprop.iter_t(),
        vec![(1, Prop::Bool(true)), (2, Prop::Bool(true))]
    );
}

#[test]
fn updates_to_prop_can_be_window_iterated() {
    let tprop = TProp::default();

    assert_eq!(tprop.iter_window_t(i64::MIN..i64::MAX), vec![]);

    let mut tprop = TProp::from(3.into(), Prop::Str("Pometry".into()));
    tprop
        .set(1.into(), Prop::Str("Pometry Inc.".into()))
        .unwrap();
    tprop.set(2.into(), Prop::Str("Raphtory".into())).unwrap();

    assert_eq!(
        tprop.iter_window_t(2..3),
        vec![(2, Prop::Str("Raphtory".into()))]
    );

    assert_eq!(tprop.iter_window_t(4..5), vec![]);

    assert_eq!(
        // Results are ordered by time
        tprop.iter_window_t(1..i64::MAX),
        vec![
            (1, Prop::Str("Pometry Inc.".into())),
            (2, Prop::Str("Raphtory".into())),
            (3, Prop::Str("Pometry".into()))
        ]
    );

    assert_eq!(
        tprop.iter_window_t(3..i64::MAX),
        vec![(3, Prop::Str("Pometry".into()))]
    );

    assert_eq!(
        tprop.iter_window_t(2..i64::MAX),
        vec![
            (2, Prop::Str("Raphtory".into())),
            (3, Prop::Str("Pometry".into()))
        ]
    );

    assert_eq!(tprop.iter_window_t(5..i64::MAX), vec![]);

    assert_eq!(
        tprop.iter_window_t(i64::MIN..4),
        // Results are ordered by time
        vec![
            (1, Prop::Str("Pometry Inc.".into())),
            (2, Prop::Str("Raphtory".into())),
            (3, Prop::Str("Pometry".into()))
        ]
    );

    assert_eq!(tprop.iter_window_t(i64::MIN..1), vec![]);

    let mut tprop = TProp::from(1.into(), Prop::I32(2022));
    tprop.set(2.into(), Prop::I32(2023)).unwrap();

    assert_eq!(
        tprop.iter_window_t(i64::MIN..i64::MAX),
        vec![(1, Prop::I32(2022)), (2, Prop::I32(2023))]
    );

    let mut tprop = TProp::from(1.into(), Prop::I64(2022));
    tprop.set(2.into(), Prop::I64(2023)).unwrap();

    assert_eq!(
        tprop.iter_window_t(i64::MIN..i64::MAX),
        vec![(1, Prop::I64(2022)), (2, Prop::I64(2023))]
    );

    let mut tprop = TProp::from(1.into(), f32_prop(10.0));
    tprop.set(2.into(), f32_prop(11.0)).unwrap();

    assert_eq!(
        tprop.iter_window_t(i64::MIN..i64::MAX),
        vec![(1, f32_prop(10.0)), (2, f32_prop(11.0))]
    );

    let mut tprop = TProp::from(1.into(), f64_prop(10.0));
    tprop.set(2.into(), f64_prop(11.0)).unwrap();

    assert_eq!(
        tprop.iter_window_t(i64::MIN..i64::MAX),
        vec![(1, f64_prop(10.0)), (2, f64_prop(11.0))]
    );

    let mut tprop = TProp::from(1.into(), Prop::U32(1));
    tprop.set(2.into(), Prop::U32(2)).unwrap();

    assert_eq!(
        tprop.iter_window_t(i64::MIN..i64::MAX),
        vec![(1, Prop::U32(1)), (2, Prop::U32(2))]
    );

    let mut tprop = TProp::from(1.into(), Prop::U64(1));
    tprop.set(2.into(), Prop::U64(2)).unwrap();

    assert_eq!(
        tprop.iter_window_t(i64::MIN..i64::MAX),
        vec![(1, Prop::U64(1)), (2, Prop::U64(2))]
    );

    let mut tprop = TProp::from(1.into(), Prop::U8(1));
    tprop.set(2.into(), Prop::U8(2)).unwrap();

    assert_eq!(
        tprop.iter_window_t(i64::MIN..i64::MAX),
        vec![(1, Prop::U8(1)), (2, Prop::U8(2))]
    );

    let mut tprop = TProp::from(1.into(), Prop::U16(1));
    tprop.set(2.into(), Prop::U16(2)).unwrap();

    assert_eq!(
        tprop.iter_window_t(i64::MIN..i64::MAX),
        vec![(1, Prop::U16(1)), (2, Prop::U16(2))]
    );

    let mut tprop = TProp::from(1.into(), Prop::Bool(true));
    tprop.set(2.into(), Prop::Bool(true)).unwrap();

    assert_eq!(
        tprop.iter_window_t(i64::MIN..i64::MAX),
        vec![(1, Prop::Bool(true)), (2, Prop::Bool(true))]
    );
}

fn f32_prop(x: f32) -> Prop {
    Prop::F32(Float32::from_bits(x.to_bits()))
}

fn f64_prop(x: f64) -> Prop {
    Prop::F64(Float64::from_bits(x.to_bits()))
}

#[test]
fn first_write_at_a_timestamp_wins() {
    let mut tprop = TProp::Empty;
    tprop.set(1.into(), Prop::str("A")).unwrap();
    tprop.set(1.into(), Prop::str("B")).unwrap();
    assert_eq!(tprop.at(&TimeIndexEntry::start(1)), Some(Prop::str("A")));
    assert_eq!(tprop.len(), 1);
}

#[test]
fn same_time_with_other_sequence_number_is_another_write() {
    let mut tprop = TProp::Empty;
    tprop.set(TimeIndexEntry::new(1, 0), Prop::I64(7)).unwrap();
    tprop.set(TimeIndexEntry::new(1, 1), Prop::I64(8)).unwrap();
    assert_eq!(
        tprop.iter(),
        vec![
            (TimeIndexEntry::new(1, 0), Prop::I64(7)),
            (TimeIndexEntry::new(1, 1), Prop::I64(8))
        ]
    );
    assert_eq!(tprop.at(&TimeIndexEntry::new(1, 1)), Some(Prop::I64(8)));
    assert_eq!(tprop.at(&TimeIndexEntry::new(1, 2)), None);
}

#[test]
fn wrong_kind_is_refused_and_changes_nothing() {
    let mut tprop = TProp::from(1.into(), Prop::I32(1));
    let r = tprop.set(2.into(), Prop::Bool(true));
    assert_eq!(r, Err(GraphError::IncorrectPropertyType));
    assert_eq!(tprop.iter_t(), vec![(1, Prop::I32(1))]);
    assert_eq!(tprop.dtype(), PropType::I32);
}

#[test]
fn last_before_takes_the_latest_write_up_to_the_time() {
    let mut tprop = TProp::Empty;
    assert_eq!(tprop.last_before(10), None);
    tprop.set(5.into(), Prop::U8(5)).unwrap();
    tprop.set(1.into(), Prop::U8(1)).unwrap();
    tprop.set(9.into(), Prop::U8(9)).unwrap();
    assert_eq!(tprop.last_before(0), None);
    assert_eq!(tprop.last_before(1), Some((TimeIndexEntry::start(1), Prop::U8(1))));
    assert_eq!(tprop.last_before(4), Some((TimeIndexEntry::start(1), Prop::U8(1))));
    assert_eq!(tprop.last_before(5), Some((TimeIndexEntry::start(5), Prop::U8(5))));
    assert_eq!(tprop.last_before(i64::MAX), Some((TimeIndexEntry::start(9), Prop::U8(9))));
}

#[test]
fn iteration_is_in_timestamp_order_and_window_is_its_filter() {
    let mut tprop = TProp::Empty;
    for t in [7i64, 3, 9, 1, 5, 3, 7] {
        tprop.set(t.into(), Prop::I64(t * 10)).unwrap();
    }
    let all = tprop.iter_t();
    assert_eq!(
        all,
        vec![
            (1, Prop::I64(10)),
            (3, Prop::I64(30)),
            (5, Prop::I64(50)),
            (7, Prop::I64(70)),
            (9, Prop::I64(90))
        ]
    );
    for a in 0..11i64 {
        for b in 0..11i64 {
            let expected: Vec<(i64, Prop)> = all
                .iter()
                .filter(|(t, _)| a <= *t && *t < b)
                .cloned()
                .collect();
            assert_eq!(tprop.iter_window_t(a..b), expected);
        }
    }
}
