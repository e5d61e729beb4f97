//! Tests of the collation order, value arithmetic, typed extraction, and
//! the cursor contract.
use std::cmp::Ordering;

use limbo_core::arith::ArithOutcome;
use limbo_core::cursor::Cursor;
use limbo_core::cursor::CursorResult;
use limbo_core::cursor::MemCursor;
use limbo_core::cursor::SeekKey;
use limbo_core::cursor::SeekOp;
use limbo_core::value::to_value;
use limbo_core::value::AggContext;
use limbo_core::value::FromValue;
use limbo_core::value::LimboText;
use limbo_core::value::OwnedRecord;
use limbo_core::value::OwnedValue;
use limbo_core::value::TextSubtype;
use limbo_core::value::Value;
use limbo_core::LimboError;

fn text(s: &str) -> OwnedValue {
    OwnedValue::build_text(s.to_string())
}

fn float(f: f64) -> OwnedValue {
    OwnedValue::Float(f.to_bits())
}

#[test]
fn ordering_null_below_integers() {
    assert_eq!(
        OwnedValue::Null.compare(&OwnedValue::Integer(0)),
        Some(Ordering::Less)
    );
    assert_eq!(
        OwnedValue::Integer(0).compare(&OwnedValue::Integer(1)),
        Some(Ordering::Less)
    );
    assert_eq!(
        OwnedValue::Null.compare(&OwnedValue::Null),
        Some(Ordering::Equal)
    );
    assert!(OwnedValue::Null < OwnedValue::Integer(0));
}

#[test]
fn ordering_integer_equals_promoted_float() {
    assert_eq!(
        OwnedValue::Integer(5).compare(&float(5.0)),
        Some(Ordering::Equal)
    );
    assert_eq!(
        float(5.0).compare(&OwnedValue::Integer(5)),
        Some(Ordering::Equal)
    );
    assert_eq!(
        OwnedValue::Integer(5).compare(&float(5.5)),
        Some(Ordering::Less)
    );
    assert_eq!(
        OwnedValue::Integer(6).compare(&float(5.5)),
        Some(Ordering::Greater)
    );
    assert_eq!(
        float(-0.0).compare(&float(0.0)),
        Some(Ordering::Equal)
    );
    assert_eq!(
        float(-1.5).compare(&float(1.5)),
        Some(Ordering::Less)
    );
}

#[test]
fn ordering_numeric_below_text_below_blob() {
    assert_eq!(
        OwnedValue::Integer(1).compare(&text("a")),
        Some(Ordering::Less)
    );
    assert_eq!(
        text("a").compare(&OwnedValue::Blob(vec![0])),
        Some(Ordering::Less)
    );
    assert_eq!(
        float(1e30).compare(&text("")),
        Some(Ordering::Less)
    );
    assert_eq!(text("ab").compare(&text("b")), Some(Ordering::Less));
    assert_eq!(
        OwnedValue::Blob(vec![1, 2]).compare(&OwnedValue::Blob(vec![1, 2, 0])),
        Some(Ordering::Less)
    );
}

#[test]
fn ordering_promotion_rounds_to_nearest_even() {
    // 2^53 + 1 is not representable: it promotes to exactly 2^53
    let big = 9007199254740993i64; // 2^53 + 1
    let as_float = 9007199254740992.0f64; // 2^53
    assert_eq!(
        OwnedValue::Integer(big).compare(&float(as_float)),
        Some(Ordering::Equal)
    );
    // and a NaN is ordered with nothing numeric
    assert_eq!(OwnedValue::Integer(1).compare(&float(f64::NAN)), None);
}

#[test]
fn ordering_aggregates_compare_by_final_value() {
    let agg = OwnedValue::Agg(Box::new(AggContext::Sum(OwnedValue::Integer(7))));
    assert_eq!(agg.compare(&OwnedValue::Integer(7)), Some(Ordering::Equal));
    assert_eq!(agg.compare(&OwnedValue::Integer(8)), Some(Ordering::Less));
    let never = OwnedValue::Agg(Box::new(AggContext::Max(None)));
    assert_eq!(never.compare(&OwnedValue::Null), Some(Ordering::Equal));
}

#[test]
fn ordering_unlike_aggregates_compare_by_final_value() {
    // the collation compares two accumulators through their final values
    // whatever their variants
    let sum = OwnedValue::Agg(Box::new(AggContext::Sum(OwnedValue::Integer(1))));
    let count = OwnedValue::Agg(Box::new(AggContext::Count(OwnedValue::Integer(1))));
    assert_eq!(sum.compare(&count), Some(Ordering::Equal));
    let max = OwnedValue::Agg(Box::new(AggContext::Max(Some(OwnedValue::Integer(2)))));
    assert_eq!(sum.compare(&max), Some(Ordering::Less));
    let never = OwnedValue::Agg(Box::new(AggContext::Min(None)));
    assert_eq!(never.compare(&sum), Some(Ordering::Less));
}

#[test]
fn ordering_records_field_wise() {
    let a = OwnedValue::Record(OwnedRecord::new(vec![
        OwnedValue::Integer(1),
        text("a"),
    ]));
    let b = OwnedValue::Record(OwnedRecord::new(vec![
        OwnedValue::Integer(1),
        text("b"),
    ]));
    assert_eq!(a.compare(&b), Some(Ordering::Less));
    assert_eq!(a.compare(&OwnedValue::Integer(1)), None);
}

#[test]
fn add_null_is_identity() {
    let samples = vec![
        OwnedValue::Null,
        OwnedValue::Integer(-3),
        float(2.5),
        text("x"),
        OwnedValue::Blob(vec![9]),
    ];
    for v in samples {
        let w = v.duplicate();
        match w.add(OwnedValue::Null) {
            ArithOutcome::Value(r) => assert_eq!(r, v),
            other => panic!("expected a value, got {:?}", kind_of(&other)),
        }
        let w = v.duplicate();
        match OwnedValue::Null.add(w) {
            ArithOutcome::Value(r) => assert_eq!(r, v),
            other => panic!("expected a value, got {:?}", kind_of(&other)),
        }
    }
}

fn kind_of(o: &ArithOutcome) -> &'static str {
    match o {
        ArithOutcome::Value(_) => "value",
        ArithOutcome::FloatOp(_, _) => "float op",
        ArithOutcome::TextThenFloat(_, _) => "text then float",
        ArithOutcome::FloatThenText(_, _) => "float then text",
        ArithOutcome::Unsupported => "unsupported",
    }
}

#[test]
fn add_concatenates_text() {
    match text("a").add(text("b")) {
        ArithOutcome::Value(OwnedValue::Text(t)) => {
            assert_eq!(t.value, "ab");
            assert_eq!(t.subtype, TextSubtype::Text);
        }
        other => panic!("expected text, got {}", kind_of(&other)),
    }
    match text("a").add(OwnedValue::Integer(1)) {
        ArithOutcome::Value(OwnedValue::Text(t)) => assert_eq!(t.value, "a1"),
        other => panic!("expected text, got {}", kind_of(&other)),
    }
    match OwnedValue::Integer(-42).add(text("!")) {
        ArithOutcome::Value(OwnedValue::Text(t)) => assert_eq!(t.value, "-42!"),
        other => panic!("expected text, got {}", kind_of(&other)),
    }
}

#[test]
fn add_integers_and_promotions() {
    match OwnedValue::Integer(2).add(OwnedValue::Integer(40)) {
        ArithOutcome::Value(OwnedValue::Integer(i)) => assert_eq!(i, 42),
        other => panic!("expected integer, got {}", kind_of(&other)),
    }
    // an integer meeting a float is promoted: the caller receives both bit
    // patterns, the integer already converted
    match OwnedValue::Integer(2).add(float(0.5)) {
        ArithOutcome::FloatOp(a, b) => {
            assert_eq!(f64::from_bits(a), 2.0);
            assert_eq!(f64::from_bits(b), 0.5);
            assert_eq!(f64::from_bits(a) + f64::from_bits(b), 2.5);
        }
        other => panic!("expected float op, got {}", kind_of(&other)),
    }
    match OwnedValue::Blob(vec![1]).add(OwnedValue::Integer(1)) {
        ArithOutcome::Unsupported => {}
        other => panic!("expected unsupported, got {}", kind_of(&other)),
    }
}

#[test]
fn div_truncates_toward_zero() {
    match OwnedValue::Integer(7).div(OwnedValue::Integer(2)) {
        ArithOutcome::Value(OwnedValue::Integer(i)) => assert_eq!(i, 3),
        other => panic!("expected integer, got {}", kind_of(&other)),
    }
    match OwnedValue::Integer(-7).div(OwnedValue::Integer(2)) {
        ArithOutcome::Value(OwnedValue::Integer(i)) => assert_eq!(i, -3),
        other => panic!("expected integer, got {}", kind_of(&other)),
    }
    match OwnedValue::Integer(i64::MIN).div(OwnedValue::Integer(1)) {
        ArithOutcome::Value(OwnedValue::Integer(i)) => assert_eq!(i, i64::MIN),
        other => panic!("expected integer, got {}", kind_of(&other)),
    }
    match float(1.0).div(OwnedValue::Integer(4)) {
        ArithOutcome::FloatOp(a, b) => {
            assert_eq!(f64::from_bits(a) / f64::from_bits(b), 0.25);
        }
        other => panic!("expected float op, got {}", kind_of(&other)),
    }
}

#[test]
fn from_value_extracts_by_tag() {
    let owned = OwnedValue::Integer(99);
    let v = to_value(&owned);
    assert_eq!(i64::from_value(&v), Ok(99));
    assert!(matches!(
        String::from_value(&v),
        Err(LimboError::ConversionError(_))
    ));

    let owned = text("hi");
    let v = to_value(&owned);
    assert_eq!(String::from_value(&v), Ok("hi".to_string()));
    assert_eq!(<&str>::from_value(&v), Ok("hi"));
    assert!(matches!(
        i64::from_value(&v),
        Err(LimboError::ConversionError(_))
    ));
}

#[test]
fn to_value_projects_aggregates() {
    let owned = OwnedValue::Agg(Box::new(AggContext::Max(Some(OwnedValue::Integer(4)))));
    assert_eq!(to_value(&owned), Value::Integer(4));
    let owned = OwnedValue::Agg(Box::new(AggContext::Min(None)));
    assert_eq!(to_value(&owned), Value::Null);
    let owned = OwnedValue::Agg(Box::new(AggContext::Avg(float(1.5), OwnedValue::Integer(2))));
    assert_eq!(to_value(&owned), Value::Float(1.5f64.to_bits()));
}

#[test]
fn agg_final_value_projection() {
    let agg = AggContext::GroupConcat(text("a,b"));
    assert_eq!(agg.final_value(), text("a,b"));
    let agg = AggContext::Max(None);
    assert_eq!(agg.final_value(), OwnedValue::Null);
}

#[test]
fn limbo_text_constructors() {
    let t = LimboText::new("x".to_string());
    assert_eq!(t.subtype, TextSubtype::Text);
    let j = LimboText::json("{}".to_string());
    assert_eq!(j.subtype, TextSubtype::Json);
    assert_eq!(j.value, "{}");
}

fn row(vals: Vec<OwnedValue>) -> OwnedRecord {
    OwnedRecord::new(vals)
}

#[test]
fn cursor_insert_seek_next_increasing() {
    let mut c = MemCursor::new(1);
    // insert out of order; the tree keeps key order
    for k in [40u64, 10, 30, 20] {
        let key = OwnedValue::Integer(k as i64);
        let rec = row(vec![OwnedValue::Integer(k as i64 * 100)]);
        match c.insert(&key, &rec, false) {
            Ok(CursorResult::Done(())) => {}
            _ => panic!("insert failed"),
        }
    }
    // after seek(key, GE) succeeds, repeated next yields strictly
    // increasing keys until off-end
    match c.seek(SeekKey::TableRowId(15), SeekOp::GE) {
        Ok(CursorResult::Done(found)) => assert!(found),
        _ => panic!("seek failed"),
    }
    let mut seen = Vec::new();
    loop {
        match c.rowid() {
            Ok(Some(k)) => seen.push(k),
            Ok(None) => break,
            Err(_) => panic!("rowid failed"),
        }
        match c.next() {
            Ok(CursorResult::Done(())) => {}
            _ => panic!("next failed"),
        }
    }
    assert_eq!(seen, vec![20, 30, 40]);
    for w in seen.windows(2) {
        assert!(w[0] < w[1]);
    }
}

#[test]
fn cursor_seek_operators() {
    let mut c = MemCursor::new(1);
    for k in [10u64, 20, 30] {
        let key = OwnedValue::Integer(k as i64);
        let rec = row(vec![OwnedValue::Null]);
        assert!(matches!(c.insert(&key, &rec, false), Ok(CursorResult::Done(()))));
    }
    assert!(matches!(
        c.seek(SeekKey::TableRowId(20), SeekOp::EQ),
        Ok(CursorResult::Done(true))
    ));
    assert_eq!(c.rowid().unwrap(), Some(20));
    assert!(matches!(
        c.seek(SeekKey::TableRowId(20), SeekOp::GT),
        Ok(CursorResult::Done(true))
    ));
    assert_eq!(c.rowid().unwrap(), Some(30));
    assert!(matches!(
        c.seek(SeekKey::TableRowId(25), SeekOp::EQ),
        Ok(CursorResult::Done(false))
    ));
    assert!(matches!(
        c.seek(SeekKey::TableRowId(31), SeekOp::GE),
        Ok(CursorResult::Done(false))
    ));
    assert_eq!(c.rowid().unwrap(), None);
}

#[test]
fn cursor_rejects_composite_keys() {
    // a table backend takes row identifiers; a composite key is refused
    // loudly rather than answered wrongly
    let mut c = MemCursor::new(1);
    let key = OwnedValue::Integer(3);
    let rec = row(vec![OwnedValue::Null]);
    assert!(matches!(c.insert(&key, &rec, false), Ok(CursorResult::Done(()))));
    let index_key = row(vec![OwnedValue::Integer(3)]);
    assert!(matches!(
        c.seek(SeekKey::IndexKey(&index_key), SeekOp::EQ),
        Err(LimboError::NotSupported)
    ));
    // the failed seek left the table untouched
    assert!(matches!(
        c.key_exists(&key),
        Ok(CursorResult::Done(true))
    ));
}

#[test]
fn cursor_rewind_record_delete_exists() {
    let mut c = MemCursor::new(7);
    assert!(c.is_empty());
    let key = OwnedValue::Integer(5);
    let rec = row(vec![text("five")]);
    assert!(matches!(c.insert(&key, &rec, true), Ok(CursorResult::Done(()))));
    assert!(!c.is_empty());
    assert!(matches!(c.rewind(), Ok(CursorResult::Done(()))));
    let got = c.record().unwrap().expect("a row");
    assert_eq!(got, row(vec![text("five")]));
    assert!(matches!(c.key_exists(&key), Ok(CursorResult::Done(true))));
    assert!(matches!(
        c.key_exists(&OwnedValue::Integer(6)),
        Ok(CursorResult::Done(false))
    ));
    assert!(matches!(c.delete(), Ok(CursorResult::Done(()))));
    assert!(c.is_empty());
    // inserting under an existing key replaces the row
    assert!(matches!(c.insert(&key, &rec, false), Ok(CursorResult::Done(()))));
    let rec2 = row(vec![text("cinq")]);
    assert!(matches!(c.insert(&key, &rec2, false), Ok(CursorResult::Done(()))));
    assert!(matches!(c.rewind(), Ok(CursorResult::Done(()))));
    assert_eq!(c.record().unwrap().expect("a row"), rec2);
    assert!(matches!(c.last(), Ok(CursorResult::Done(()))));
    assert_eq!(c.rowid().unwrap(), Some(5));
    c.set_null_flag(true);
    assert!(c.get_null_flag());
    c.set_null_flag(false);
    assert!(!c.get_null_flag());
    assert_eq!(c.root_page(), 7);
}
