use ntstrings2dict::builder::{DictBuilder, KeyWidth};
use ntstrings2dict::error::PipelineError;
use ntstrings2dict::pipeline::{strings2dict_array, strings2dict_array_nullable};
use ntstrings2dict::slot::decode_slot;

#[test]
fn builder_assigns_stable_keys() {
    let mut b = DictBuilder::new(KeyWidth::U16);
    b.push_value("red".to_string()).unwrap();
    b.push_value("green".to_string()).unwrap();
    b.push_value("red".to_string()).unwrap();
    b.push_value("blue".to_string()).unwrap();
    let c = b.finish();
    assert_eq!(c.key_count(), 4);
    assert_eq!(c.unique_value_count(), 3);
    assert_eq!(c.key_at(0), Some(0));
    assert_eq!(c.key_at(1), Some(1));
    assert_eq!(c.key_at(2), Some(0));
    assert_eq!(c.key_at(3), Some(2));
    assert_eq!(c.value_at(0), "red");
    assert_eq!(c.value_at(1), "green");
    assert_eq!(c.value_at(2), "blue");
}

#[test]
fn builder_null_takes_no_value_slot() {
    let mut b = DictBuilder::new(KeyWidth::U32);
    b.push_value("a".to_string()).unwrap();
    b.push_null();
    b.push_value("a".to_string()).unwrap();
    let c = b.finish();
    assert_eq!(c.key_count(), 3);
    assert_eq!(c.unique_value_count(), 1);
    assert_eq!(c.key_at(0), Some(0));
    assert_eq!(c.key_at(1), None);
    assert_eq!(c.key_at(2), Some(0));
}

#[test]
fn builder_with_capacity_matches_plain() {
    let mut a = DictBuilder::new(KeyWidth::U32);
    let mut b = DictBuilder::with_capacity(KeyWidth::U32, 8, 4, 64);
    for v in ["x", "y", "x"] {
        a.push_value(v.to_string()).unwrap();
        b.push_value(v.to_string()).unwrap();
    }
    assert_eq!(a.finish(), b.finish());
}

#[test]
fn builder_overflow_reports_key_overflow() {
    let mut b = DictBuilder::new(KeyWidth::U8);
    for i in 0..256u32 {
        b.push_value(format!("{i}")).unwrap();
    }
    // A repeat of a known value still fits...
    b.push_value("0".to_string()).unwrap();
    // ...but a fresh one does not.
    let r = b.push_value("overflowing".to_string());
    assert_eq!(r, Err(PipelineError::KeyOverflow));
    // The failed insertion left the builder unchanged.
    let c = b.finish();
    assert_eq!(c.unique_value_count(), 256);
    assert_eq!(c.key_count(), 257);
}

#[test]
fn fallible_build_succeeds_on_all_ok() {
    let strings: Vec<Result<String, PipelineError>> =
        vec![Ok("p".to_string()), Ok("q".to_string()), Ok("p".to_string())];
    let c = strings2dict_array(strings, None, KeyWidth::U32).unwrap();
    assert_eq!(c.key_count(), 3);
    assert_eq!(c.unique_value_count(), 2);
    assert_eq!(c.key_at(2), Some(0));
}

#[test]
fn fallible_build_propagates_first_error_verbatim() {
    let strings: Vec<Result<String, PipelineError>> = vec![
        Ok("p".to_string()),
        Err(PipelineError::IoFault("read failed".to_string())),
        Err(PipelineError::TruncatedSlot),
        Ok("q".to_string()),
    ];
    let r = strings2dict_array(strings, None, KeyWidth::U32);
    assert_eq!(r, Err(PipelineError::IoFault("read failed".to_string())));
}

#[test]
fn fallible_build_overflow_preempts_later_error() {
    let mut strings: Vec<Result<String, PipelineError>> = Vec::new();
    for i in 0..257u32 {
        strings.push(Ok(format!("{i}")));
    }
    strings.push(Err(PipelineError::IoFault("late".to_string())));
    let r = strings2dict_array(strings, None, KeyWidth::U8);
    assert_eq!(r, Err(PipelineError::KeyOverflow));
}

#[test]
fn nullable_build_marks_nulls() {
    let strings: Vec<Option<String>> =
        vec![Some("n".to_string()), None, Some("m".to_string()), Some("n".to_string()), None];
    let c = strings2dict_array_nullable(strings, Some((5, 2, 16)), KeyWidth::U16);
    assert_eq!(c.key_count(), 5);
    assert_eq!(c.unique_value_count(), 2);
    assert_eq!(c.key_at(0), Some(0));
    assert_eq!(c.key_at(1), None);
    assert_eq!(c.key_at(2), Some(1));
    assert_eq!(c.key_at(3), Some(0));
    assert_eq!(c.key_at(4), None);
}

#[test]
fn decode_slot_cuts_at_first_nul() {
    let r = decode_slot(b"hi\0junk\0").unwrap();
    assert_eq!(r, "hi");
    let r2 = decode_slot(b"\0padding").unwrap();
    assert_eq!(r2, "");
    assert_eq!(decode_slot(b"nonulhere"), Err(PipelineError::MissingTerminator));
}

#[test]
fn error_duplicate_is_equal() {
    let e = PipelineError::IoFault("cause".to_string());
    assert_eq!(e.duplicate(), e);
    assert_eq!(PipelineError::NotFound.duplicate(), PipelineError::NotFound);
    assert_eq!(PipelineError::InvalidConfig.duplicate(), PipelineError::InvalidConfig);
}
