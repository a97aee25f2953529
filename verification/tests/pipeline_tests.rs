use ntstrings2dict::builder::KeyWidth;
use ntstrings2dict::error::PipelineError;
use ntstrings2dict::pipeline::{nts2dict_arr, nts2strings_lossy};

fn slot(content: &[u8], width: usize) -> Vec<u8> {
    let mut s = content.to_vec();
    assert!(s.len() <= width);
    s.resize(width, 0);
    s
}

#[test]
fn three_slots_dedup_keys() {
    let mut bytes = Vec::new();
    bytes.extend_from_slice(&slot(b"ab\0", 8));
    bytes.extend_from_slice(&slot(b"cd\0", 8));
    bytes.extend_from_slice(&slot(b"ab\0", 8));
    let c = nts2dict_arr(&bytes, 8, None, KeyWidth::U32).unwrap();
    assert_eq!(c.key_count(), 3);
    assert_eq!(c.unique_value_count(), 2);
    assert_eq!(c.key_at(0), Some(0));
    assert_eq!(c.key_at(1), Some(1));
    assert_eq!(c.key_at(2), Some(0));
    assert_eq!(c.value_at(0), "ab");
    assert_eq!(c.value_at(1), "cd");
}

#[test]
fn slot_without_nul_fails() {
    let mut bytes = Vec::new();
    bytes.extend_from_slice(&slot(b"ab\0", 8));
    bytes.extend_from_slice(b"abcdefgh");
    let r = nts2dict_arr(&bytes, 8, None, KeyWidth::U32);
    assert_eq!(r, Err(PipelineError::MissingTerminator));
}

#[test]
fn remainder_fails_truncated() {
    let bytes = vec![b'a', 0, 0, 0, 0, 0, 0, 0, b'b', 0, 0, 0, 0, 0, 0, 0, b'c', 0, 0, 0];
    assert_eq!(bytes.len(), 20);
    let r = nts2dict_arr(&bytes, 8, None, KeyWidth::U32);
    assert_eq!(r, Err(PipelineError::TruncatedSlot));
}

#[test]
fn empty_input_succeeds() {
    for width in [1usize, 3, 8, 1024] {
        let c = nts2dict_arr(&[], width, None, KeyWidth::U16).unwrap();
        assert_eq!(c.key_count(), 0);
        assert_eq!(c.unique_value_count(), 0);
    }
}

#[test]
fn invalid_bytes_are_replaced_not_rejected() {
    let bytes = slot(&[0xff, b'a', 0], 8);
    let c = nts2dict_arr(&bytes, 8, None, KeyWidth::U8).unwrap();
    assert_eq!(c.key_count(), 1);
    assert_eq!(c.unique_value_count(), 1);
    assert_eq!(c.value_at(0), "\u{FFFD}a");
}

#[test]
fn identical_runs_give_identical_columns() {
    let mut bytes = Vec::new();
    for content in [&b"xy\0"[..], b"z\0", b"xy\0", b"w\0", b"z\0"] {
        bytes.extend_from_slice(&slot(content, 4));
    }
    let a = nts2dict_arr(&bytes, 4, None, KeyWidth::U32).unwrap();
    let b = nts2dict_arr(&bytes, 4, None, KeyWidth::U32).unwrap();
    assert_eq!(a, b);
}

#[test]
fn size_hint_never_changes_the_column() {
    let mut bytes = Vec::new();
    for content in [&b"one\0"[..], b"two\0", b"one\0"] {
        bytes.extend_from_slice(&slot(content, 6));
    }
    let plain = nts2dict_arr(&bytes, 6, None, KeyWidth::U32).unwrap();
    let hinted = nts2dict_arr(&bytes, 6, Some((100, 50, 4096)), KeyWidth::U32).unwrap();
    assert_eq!(plain, hinted);
}

#[test]
fn first_occurrence_sets_key_order() {
    let mut bytes = Vec::new();
    for content in [&b"b\0"[..], b"a\0", b"c\0", b"a\0", b"b\0"] {
        bytes.extend_from_slice(&slot(content, 3));
    }
    let c = nts2dict_arr(&bytes, 3, None, KeyWidth::U32).unwrap();
    assert_eq!(c.value_at(0), "b");
    assert_eq!(c.value_at(1), "a");
    assert_eq!(c.value_at(2), "c");
    assert_eq!(c.key_at(0), Some(0));
    assert_eq!(c.key_at(1), Some(1));
    assert_eq!(c.key_at(2), Some(2));
    assert_eq!(c.key_at(3), Some(1));
    assert_eq!(c.key_at(4), Some(0));
}

#[test]
fn indexing_keys_reconstructs_records() {
    let mut bytes = Vec::new();
    for content in [&b"r1\0"[..], b"r2\0", b"r1\0", b"r3\0"] {
        bytes.extend_from_slice(&slot(content, 5));
    }
    let records = nts2strings_lossy(&bytes, 5).unwrap();
    let c = nts2dict_arr(&bytes, 5, None, KeyWidth::U32).unwrap();
    assert_eq!(c.key_count(), records.len());
    for (i, r) in records.iter().enumerate() {
        let k = c.key_at(i).unwrap() as usize;
        assert_eq!(c.value_at(k), r);
    }
}

#[test]
fn decode_all_records_in_order() {
    let mut bytes = Vec::new();
    for content in [&b"alpha\0"[..], b"\0", b"beta\0"] {
        bytes.extend_from_slice(&slot(content, 8));
    }
    let records = nts2strings_lossy(&bytes, 8).unwrap();
    assert_eq!(records, vec!["alpha".to_string(), "".to_string(), "beta".to_string()]);
}

#[test]
fn decode_errors_match_pipeline_errors() {
    assert_eq!(nts2strings_lossy(b"no nul here!", 12), Err(PipelineError::MissingTerminator));
    assert_eq!(nts2strings_lossy(b"ab\0\0\0", 4), Err(PipelineError::TruncatedSlot));
}

#[test]
fn missing_terminator_wins_over_remainder() {
    // Slot 0 has no NUL; the input also ends in a partial slot. The
    // malformed slot is hit first.
    let mut bytes = b"abcd".to_vec();
    bytes.extend_from_slice(b"xy");
    let r = nts2strings_lossy(&bytes, 4);
    assert_eq!(r, Err(PipelineError::MissingTerminator));
}

#[test]
fn nul_in_last_position_is_legal() {
    let bytes = b"abcdefg\0".to_vec();
    let records = nts2strings_lossy(&bytes, 8).unwrap();
    assert_eq!(records, vec!["abcdefg".to_string()]);
}

#[test]
fn key_overflow_on_narrow_width() {
    let mut bytes = Vec::new();
    for i in 0..257u32 {
        let content = format!("{i}");
        bytes.extend_from_slice(&slot(content.as_bytes(), 8));
    }
    let r = nts2dict_arr(&bytes, 8, None, KeyWidth::U8);
    assert_eq!(r, Err(PipelineError::KeyOverflow));
}

#[test]
fn narrow_width_holds_exactly_its_range() {
    let mut bytes = Vec::new();
    for i in 0..256u32 {
        let content = format!("{i}");
        bytes.extend_from_slice(&slot(content.as_bytes(), 8));
    }
    let c = nts2dict_arr(&bytes, 8, None, KeyWidth::U8).unwrap();
    assert_eq!(c.key_count(), 256);
    assert_eq!(c.unique_value_count(), 256);
}

#[test]
fn overflow_preempts_remainder() {
    // 257 distinct single-record slots, then a trailing partial slot: the
    // key overflow strikes while consuming the full slots.
    let mut bytes = Vec::new();
    for i in 0..257u32 {
        let content = format!("{i}");
        bytes.extend_from_slice(&slot(content.as_bytes(), 8));
    }
    bytes.extend_from_slice(b"xy");
    let r = nts2dict_arr(&bytes, 8, None, KeyWidth::U8);
    assert_eq!(r, Err(PipelineError::KeyOverflow));
}

#[test]
fn valid_utf8_passes_through_unchanged() {
    let two_byte = "h\u{e9}llo";
    let three_byte = "\u{65e5}\u{672c}\u{8a9e}";
    let mut bytes = Vec::new();
    let mut first = two_byte.as_bytes().to_vec();
    first.push(0);
    bytes.extend_from_slice(&slot(&first, 12));
    let mut second = three_byte.as_bytes().to_vec();
    second.push(0);
    bytes.extend_from_slice(&slot(&second, 12));
    let records = nts2strings_lossy(&bytes, 12).unwrap();
    assert_eq!(records, vec![two_byte.to_string(), three_byte.to_string()]);
}

#[test]
fn single_byte_slots() {
    let bytes = vec![0u8, 0, 0];
    let c = nts2dict_arr(&bytes, 1, None, KeyWidth::U32).unwrap();
    assert_eq!(c.key_count(), 3);
    assert_eq!(c.unique_value_count(), 1);
    assert_eq!(c.value_at(0), "");
}
