use parcel_watcher::bser::ObjField;
use parcel_watcher::bser::Value;
use parcel_watcher::bser::decode;
use parcel_watcher::bser::encode;
use parcel_watcher::glob::GlobSet;
use parcel_watcher::glob::Pattern;

fn values_equal(a: &Value, b: &Value) -> bool {
    match (a, b) {
        (Value::Null, Value::Null) => true,
        (Value::Bool(x), Value::Bool(y)) => x == y,
        (Value::Int(x), Value::Int(y)) => x == y,
        (Value::Str(x), Value::Str(y)) => x == y,
        (Value::Array(xs), Value::Array(ys)) => {
            xs.len() == ys.len() && xs.iter().zip(ys.iter()).all(|(x, y)| values_equal(x, y))
        }
        (Value::Object(xs), Value::Object(ys)) => {
            xs.len() == ys.len()
                && xs
                    .iter()
                    .zip(ys.iter())
                    .all(|(x, y)| x.key == y.key && values_equal(&x.val, &y.val))
        }
        _ => false,
    }
}

fn round_trip(v: Value) {
    let bytes = encode(&v);
    let (back, used) = decode(&bytes).expect("a fresh encoding must decode");
    assert_eq!(used, bytes.len());
    assert!(values_equal(&v, &back));
}

#[test]
fn codec_round_trips_scalars() {
    round_trip(Value::Null);
    round_trip(Value::Bool(true));
    round_trip(Value::Bool(false));
    round_trip(Value::Int(0));
    round_trip(Value::Int(-1));
    round_trip(Value::Int(i64::MAX));
    round_trip(Value::Int(i64::MIN));
    round_trip(Value::Str(Vec::new()));
    round_trip(Value::Str(b"hello".to_vec()));
}

#[test]
fn codec_round_trips_nested_structures() {
    let v = Value::Array(vec![
        Value::Int(42),
        Value::Str(b"path/to/file".to_vec()),
        Value::Array(vec![Value::Null, Value::Bool(false)]),
        Value::Object(vec![
            ObjField { key: b"exists".to_vec(), val: Value::Bool(true) },
            ObjField { key: b"mtime".to_vec(), val: Value::Int(1_700_000_000) },
            ObjField {
                key: b"children".to_vec(),
                val: Value::Array(vec![Value::Str(b"a".to_vec()), Value::Str(b"b".to_vec())]),
            },
        ]),
    ]);
    round_trip(v);
}

#[test]
fn codec_int_frame_is_nine_bytes() {
    let bytes = encode(&Value::Int(1));
    assert_eq!(bytes.len(), 9);
    assert_eq!(bytes[0], parcel_watcher::bser::TAG_INT);
    assert_eq!(bytes[1], 1);
    assert_eq!(&bytes[2..9], &[0, 0, 0, 0, 0, 0, 0]);
}

#[test]
fn codec_rejects_malformed_frames() {
    assert!(decode(&Vec::new()).is_none());
    // unknown tag
    assert!(decode(&vec![0xffu8]).is_none());
    // integer frame cut short
    assert!(decode(&vec![parcel_watcher::bser::TAG_INT, 1, 2]).is_none());
    // string whose length prefix overruns the buffer
    let mut s = encode(&Value::Str(b"abc".to_vec()));
    s.truncate(s.len() - 1);
    assert!(decode(&s).is_none());
}

#[test]
fn codec_decodes_frames_from_a_stream() {
    let mut stream = encode(&Value::Int(7));
    stream.extend_from_slice(&encode(&Value::Str(b"next".to_vec())));
    let (first, used) = decode(&stream).expect("first frame");
    assert!(values_equal(&first, &Value::Int(7)));
    let rest: Vec<u8> = stream[used..].to_vec();
    let (second, used2) = decode(&rest).expect("second frame");
    assert!(values_equal(&second, &Value::Str(b"next".to_vec())));
    assert_eq!(used2, rest.len());
}

#[test]
fn glob_any_depth_star_matches_suffix() {
    let pat = Pattern::new(&b"**/*.tmp".to_vec());
    assert!(pat.matches(&b"a/b/c.tmp".to_vec()));
    assert!(!pat.matches(&b"a/b/c.tmp2".to_vec()));
    assert!(pat.matches(&b"c.tmp".to_vec()));
    assert!(!pat.matches(&b"a/b/c.txt".to_vec()));
}

#[test]
fn glob_single_star_stays_in_segment() {
    let pat = Pattern::new(&b"src/*.rs".to_vec());
    assert!(pat.matches(&b"src/lib.rs".to_vec()));
    assert!(!pat.matches(&b"src/nested/lib.rs".to_vec()));
    assert!(!pat.matches(&b"other/lib.rs".to_vec()));
}

#[test]
fn glob_double_star_crosses_depth() {
    let pat = Pattern::new(&b"node_modules/**".to_vec());
    assert!(pat.matches(&b"node_modules/a/b/c".to_vec()));
    assert!(!pat.matches(&b"src/a".to_vec()));
}

#[test]
fn empty_ignore_set_includes_every_path() {
    let set = GlobSet::new();
    assert!(!set.ignored(&b"anything".to_vec()));
    assert!(!set.ignored(&b"a/b/c.tmp".to_vec()));
    assert!(!set.ignored(&Vec::new()));
}

#[test]
fn ignore_set_is_an_or_of_patterns() {
    let mut set = GlobSet::new();
    set.add(Pattern::new(&b"**/*.tmp".to_vec()));
    set.add(Pattern::new(&b"build/**".to_vec()));
    assert!(set.ignored(&b"x/y.tmp".to_vec()));
    assert!(set.ignored(&b"build/out/bin".to_vec()));
    assert!(!set.ignored(&b"src/main.rs".to_vec()));
}
