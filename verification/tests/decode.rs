use serde::ser::{Serialize, SerializeStructVariant, SerializeTuple, Serializer};

use turbopack_trace_server::decode::{decode, Decoded};
use turbopack_trace_server::row::{TraceRow, TraceValue};

// The producer's records, as it hands them to its serializer.
enum Value {
    String(String),
    Bool(bool),
    UInt(u64),
    Int(i64),
    Float(f64),
}

enum Row {
    Start { ts: u64, id: u64, parent: Option<u64>, name: String, target: String, values: Vec<(String, Value)> },
    End { ts: u64, id: u64 },
    Enter { ts: u64, id: u64, thread_id: u64 },
    Exit { ts: u64, id: u64, thread_id: u64 },
    Event { ts: u64, parent: Option<u64>, values: Vec<(String, Value)> },
}

impl Serialize for Value {
    fn serialize<S: Serializer>(&self, serializer: S) -> Result<S::Ok, S::Error> {
        match self {
            Value::String(v) => serializer.serialize_newtype_variant("TraceValue", 0, "String", v),
            Value::Bool(v) => serializer.serialize_newtype_variant("TraceValue", 1, "Bool", v),
            Value::UInt(v) => serializer.serialize_newtype_variant("TraceValue", 2, "UInt", v),
            Value::Int(v) => serializer.serialize_newtype_variant("TraceValue", 3, "Int", v),
            Value::Float(v) => serializer.serialize_newtype_variant("TraceValue", 4, "Float", v),
        }
    }
}

struct Pair<'a>(&'a (String, Value));

impl Serialize for Pair<'_> {
    fn serialize<S: Serializer>(&self, serializer: S) -> Result<S::Ok, S::Error> {
        let mut tuple = serializer.serialize_tuple(2)?;
        tuple.serialize_element(&self.0 .0)?;
        tuple.serialize_element(&self.0 .1)?;
        tuple.end()
    }
}

struct Pairs<'a>(&'a Vec<(String, Value)>);

impl Serialize for Pairs<'_> {
    fn serialize<S: Serializer>(&self, serializer: S) -> Result<S::Ok, S::Error> {
        serializer.collect_seq(self.0.iter().map(Pair))
    }
}

impl Serialize for Row {
    fn serialize<S: Serializer>(&self, serializer: S) -> Result<S::Ok, S::Error> {
        match self {
            Row::Start { ts, id, parent, name, target, values } => {
                let mut sv = serializer.serialize_struct_variant("TraceRow", 0, "Start", 6)?;
                sv.serialize_field("ts", ts)?;
                sv.serialize_field("id", id)?;
                sv.serialize_field("parent", parent)?;
                sv.serialize_field("name", name)?;
                sv.serialize_field("target", target)?;
                sv.serialize_field("values", &Pairs(values))?;
                sv.end()
            }
            Row::End { ts, id } => {
                let mut sv = serializer.serialize_struct_variant("TraceRow", 1, "End", 2)?;
                sv.serialize_field("ts", ts)?;
                sv.serialize_field("id", id)?;
                sv.end()
            }
            Row::Enter { ts, id, thread_id } => {
                let mut sv = serializer.serialize_struct_variant("TraceRow", 2, "Enter", 3)?;
                sv.serialize_field("ts", ts)?;
                sv.serialize_field("id", id)?;
                sv.serialize_field("thread_id", thread_id)?;
                sv.end()
            }
            Row::Exit { ts, id, thread_id } => {
                let mut sv = serializer.serialize_struct_variant("TraceRow", 3, "Exit", 3)?;
                sv.serialize_field("ts", ts)?;
                sv.serialize_field("id", id)?;
                sv.serialize_field("thread_id", thread_id)?;
                sv.end()
            }
            Row::Event { ts, parent, values } => {
                let mut sv = serializer.serialize_struct_variant("TraceRow", 4, "Event", 3)?;
                sv.serialize_field("ts", ts)?;
                sv.serialize_field("parent", parent)?;
                sv.serialize_field("values", &Pairs(values))?;
                sv.end()
            }
        }
    }
}

fn encode(row: &Row) -> Vec<u8> {
    postcard::to_stdvec(row).expect("encodes")
}

fn rich_start() -> Row {
    Row::Start {
        ts: 1_700_000_000_123_456_789,
        id: 300,
        parent: Some(u64::MAX),
        name: "näme ✓".to_string(),
        target: "".to_string(),
        values: vec![
            ("s".to_string(), Value::String("text".to_string())),
            ("b".to_string(), Value::Bool(true)),
            ("u".to_string(), Value::UInt(128)),
            ("i".to_string(), Value::Int(-1)),
            ("min".to_string(), Value::Int(i64::MIN)),
            ("f".to_string(), Value::Float(-2.5)),
        ],
    }
}

fn assert_rich_start(row: &TraceRow) {
    match row {
        TraceRow::Start { ts, id, parent, name, target, values } => {
            assert_eq!(*ts, 1_700_000_000_123_456_789);
            assert_eq!(*id, 300);
            assert_eq!(*parent, Some(u64::MAX));
            assert_eq!(name, "näme ✓");
            assert_eq!(target, "");
            assert_eq!(values.len(), 6);
            assert_eq!(values[0].0, "s");
            assert!(matches!(&values[0].1, TraceValue::String(v) if v == "text"));
            assert!(matches!(values[1].1, TraceValue::Bool(true)));
            assert!(matches!(values[2].1, TraceValue::UInt(128)));
            assert!(matches!(values[3].1, TraceValue::Int(-1)));
            assert!(matches!(values[4].1, TraceValue::Int(i64::MIN)));
            assert_eq!(values[5].0, "f");
            assert!(matches!(values[5].1, TraceValue::Float(bits) if bits == (-2.5f64).to_bits()));
        }
        other => panic!("not a start: {:?}", other),
    }
}

#[test]
fn decode_reads_what_the_serializer_wrote() {
    let bytes = encode(&rich_start());
    match decode(&bytes, 0) {
        Decoded::Record(row, next) => {
            assert_eq!(next, bytes.len());
            assert_rich_start(&row);
        }
        other => panic!("no record: {:?}", other),
    }
}

#[test]
fn decode_reads_every_kind_of_record() {
    let rows = vec![
        Row::End { ts: 1, id: 2 },
        Row::Enter { ts: 3, id: 4, thread_id: 5 },
        Row::Exit { ts: 6, id: 7, thread_id: 1 << 40 },
        Row::Event { ts: 8, parent: None, values: vec![("k".to_string(), Value::Bool(false))] },
        Row::Event { ts: 9, parent: Some(0), values: Vec::new() },
        Row::Start { ts: 0, id: 0, parent: None, name: "n".into(), target: "t".into(), values: Vec::new() },
    ];
    let mut bytes = Vec::new();
    let mut ends = Vec::new();
    for row in &rows {
        bytes.extend(encode(row));
        ends.push(bytes.len());
    }
    let mut offset = 0;
    let mut decoded = Vec::new();
    for end in &ends {
        match decode(&bytes, offset) {
            Decoded::Record(row, next) => {
                assert_eq!(next, *end);
                decoded.push(row);
                offset = next;
            }
            other => panic!("no record at {}: {:?}", offset, other),
        }
    }
    assert!(matches!(decoded[0], TraceRow::End { ts: 1, id: 2 }));
    assert!(matches!(decoded[1], TraceRow::Enter { ts: 3, id: 4, thread_id: 5 }));
    assert!(matches!(decoded[2], TraceRow::Exit { ts: 6, id: 7, thread_id } if thread_id == 1 << 40));
    match &decoded[3] {
        TraceRow::Event { ts: 8, parent: None, values } => {
            assert_eq!(values.len(), 1);
            assert!(matches!(values[0].1, TraceValue::Bool(false)));
        }
        other => panic!("unexpected {:?}", other),
    }
    assert!(matches!(&decoded[4], TraceRow::Event { ts: 9, parent: Some(0), values } if values.is_empty()));
    assert!(matches!(&decoded[5], TraceRow::Start { ts: 0, id: 0, parent: None, name, .. } if name == "n"));
    assert!(matches!(decode(&bytes, offset), Decoded::NeedMore));
}

#[test]
fn decode_reads_the_documented_bytes() {
    // enter: tag 2, ts 300 as a two-byte varint, id 1, thread 127
    let bytes = [0x02, 0xac, 0x02, 0x01, 0x7f];
    assert!(matches!(
        decode(&bytes, 0),
        Decoded::Record(TraceRow::Enter { ts: 300, id: 1, thread_id: 127 }, 5)
    ));
    // event: tag 4, ts 0, parent present and 5, one attribute "a" => signed -3 (zigzag 5)
    let bytes = [0x04, 0x00, 0x01, 0x05, 0x01, 0x01, b'a', 0x03, 0x05];
    match decode(&bytes, 0) {
        Decoded::Record(TraceRow::Event { ts: 0, parent: Some(5), values }, 9) => {
            assert_eq!(values.len(), 1);
            assert_eq!(values[0].0, "a");
            assert!(matches!(values[0].1, TraceValue::Int(-3)));
        }
        other => panic!("unexpected {:?}", other),
    }
    // a float attribute is its eight bytes, least significant first
    let mut bytes = vec![0x04, 0x00, 0x00, 0x01, 0x01, b'f', 0x04];
    bytes.extend_from_slice(&1.0f64.to_le_bytes());
    match decode(&bytes, 0) {
        Decoded::Record(TraceRow::Event { values, .. }, next) => {
            assert_eq!(next, bytes.len());
            assert!(matches!(values[0].1, TraceValue::Float(0x3ff0_0000_0000_0000)));
        }
        other => panic!("unexpected {:?}", other),
    }
}

#[test]
fn decode_starts_at_the_offset_it_is_given() {
    let mut bytes = vec![0xff, 0xff, 0xff];
    bytes.extend(encode(&Row::End { ts: 10, id: 20 }));
    bytes.extend(encode(&Row::End { ts: 30, id: 40 }));
    match decode(&bytes, 3) {
        Decoded::Record(TraceRow::End { ts: 10, id: 20 }, next) => {
            assert_eq!(next, 6);
            assert!(matches!(
                decode(&bytes, next),
                Decoded::Record(TraceRow::End { ts: 30, id: 40 }, 9)
            ));
        }
        other => panic!("unexpected {:?}", other),
    }
}

#[test]
fn decode_asks_for_more_at_every_cut() {
    let bytes = encode(&rich_start());
    for cut in 0..bytes.len() {
        assert!(
            matches!(decode(&bytes[..cut], 0), Decoded::NeedMore),
            "cut at {} of {}",
            cut,
            bytes.len()
        );
    }
    assert!(matches!(decode(&bytes, bytes.len()), Decoded::NeedMore));
    assert!(matches!(decode(&[], 0), Decoded::NeedMore));
}

#[test]
fn decode_reports_bytes_that_cannot_be_a_record() {
    // no such record kind
    assert!(matches!(decode(&[0x05, 0x00, 0x00], 0), Decoded::MalformedAt(0)));
    assert!(matches!(decode(&[0x00, 0x09], 1), Decoded::MalformedAt(1)));
    // a varint that does not fit 64 bits
    let mut bytes = vec![0x01];
    bytes.extend([0xff; 10]);
    bytes.push(0x01);
    assert!(matches!(decode(&bytes, 0), Decoded::MalformedAt(0)));
    // an option that is neither absent nor present
    assert!(matches!(decode(&[0x04, 0x00, 0x02, 0x00], 0), Decoded::MalformedAt(0)));
    // a name that is not UTF-8
    assert!(matches!(
        decode(&[0x00, 0x00, 0x00, 0x00, 0x02, 0xc3, 0x28, 0x00, 0x00], 0),
        Decoded::MalformedAt(0)
    ));
    // no such kind of attribute value
    assert!(matches!(
        decode(&[0x04, 0x00, 0x00, 0x01, 0x01, b'k', 0x07, 0x00], 0),
        Decoded::MalformedAt(0)
    ));
    // a boolean that is neither false nor true
    assert!(matches!(
        decode(&[0x04, 0x00, 0x00, 0x01, 0x01, b'k', 0x01, 0x02], 0),
        Decoded::MalformedAt(0)
    ));
}

#[test]
fn decode_does_not_trust_a_huge_attribute_count() {
    // an event that announces 2^63 attributes and brings one
    let mut bytes = vec![0x04, 0x00, 0x00];
    bytes.extend([0x80, 0x80, 0x80, 0x80, 0x80, 0x80, 0x80, 0x80, 0x80, 0x01]);
    bytes.extend([0x01, b'k', 0x01, 0x01]);
    assert!(matches!(decode(&bytes, 0), Decoded::NeedMore));
}
