use mcregion::nbt::Nbt;
use mcregion::nbt::encode_root;
use mcregion::nbt::parse_root;

fn sample_doc() -> Nbt {
    Nbt::Compound(vec![
        (b"name".to_vec(), Nbt::Text(b"hut".to_vec())),
        (b"count".to_vec(), Nbt::Short(-2)),
        (b"seed".to_vec(), Nbt::Long(0x0123_4567_89AB_CDEF)),
        (b"bytes".to_vec(), Nbt::ByteArray(vec![-1, 0, 1])),
        (b"ints".to_vec(), Nbt::IntArray(vec![-65536, 65536])),
        (b"longs".to_vec(), Nbt::LongArray(vec![-1])),
        (
            b"rooms".to_vec(),
            Nbt::List(vec![
                Nbt::Compound(vec![(b"w".to_vec(), Nbt::Int(3))]),
                Nbt::Compound(vec![(b"w".to_vec(), Nbt::Int(4))]),
            ]),
        ),
        (b"empty".to_vec(), Nbt::List(vec![])),
    ])
}

#[test]
fn exact_wire_bytes_of_a_small_document() {
    let root = Nbt::Compound(vec![(b"n".to_vec(), Nbt::Short(0x0102))]);
    let bytes = encode_root(&Vec::new(), &root);
    assert_eq!(
        bytes,
        vec![
            0x0A, 0x00, 0x00, // compound root with empty name
            0x02, 0x00, 0x01, b'n', // short entry named "n"
            0x01, 0x02, // big-endian value
            0x00, // end marker
        ]
    );
}

#[test]
fn parser_inverts_encoder() {
    let doc = sample_doc();
    let bytes = encode_root(&b"root".to_vec(), &doc);
    let (name, tree, end) = parse_root(&bytes).expect("own bytes parse");
    assert_eq!(name, b"root".to_vec());
    assert_eq!(end, bytes.len());
    assert_eq!(tree, sample_doc());
}

#[test]
fn truncated_document_is_rejected() {
    let bytes = encode_root(&Vec::new(), &sample_doc());
    for cut in [0, 1, 2, bytes.len() / 2, bytes.len() - 1] {
        assert!(parse_root(&bytes[..cut].to_vec()).is_none());
    }
}

#[test]
fn non_compound_root_is_rejected() {
    // tag 3 (int) at the root is not a chunk document
    let bytes = vec![0x03, 0x00, 0x00, 0x00, 0x00, 0x00, 0x07];
    assert!(parse_root(&bytes).is_none());
}

fn to_fastnbt(v: &Nbt) -> fastnbt::Value {
    match v {
        Nbt::Byte(b) => fastnbt::Value::Byte(*b),
        Nbt::Short(s) => fastnbt::Value::Short(*s),
        Nbt::Int(i) => fastnbt::Value::Int(*i),
        Nbt::Long(l) => fastnbt::Value::Long(*l),
        Nbt::Float(bits) => fastnbt::Value::Float(f32::from_bits(*bits)),
        Nbt::Double(bits) => fastnbt::Value::Double(f64::from_bits(*bits)),
        Nbt::ByteArray(a) => fastnbt::Value::ByteArray(fastnbt::ByteArray::new(a.clone())),
        Nbt::Text(t) => fastnbt::Value::String(String::from_utf8(t.clone()).unwrap()),
        Nbt::List(items) => fastnbt::Value::List(items.iter().map(to_fastnbt).collect()),
        Nbt::Compound(entries) => fastnbt::Value::Compound(
            entries
                .iter()
                .map(|(k, v)| (String::from_utf8(k.clone()).unwrap(), to_fastnbt(v)))
                .collect(),
        ),
        Nbt::IntArray(a) => fastnbt::Value::IntArray(fastnbt::IntArray::new(a.clone())),
        Nbt::LongArray(a) => fastnbt::Value::LongArray(fastnbt::LongArray::new(a.clone())),
    }
}

#[test]
fn wire_form_agrees_with_the_reference_codec() {
    let doc = sample_doc();
    let bytes = encode_root(&Vec::new(), &doc);
    let reference: fastnbt::Value =
        fastnbt::from_bytes(&bytes).expect("the reference codec reads our bytes");
    assert_eq!(reference, to_fastnbt(&doc));

    // and back: the reference codec's bytes parse to the same tree, up to
    // the compound entry order its map type loses
    let reference_bytes = fastnbt::to_bytes(&to_fastnbt(&doc)).expect("serializes");
    let (_, tree, end) = parse_root(&reference_bytes).expect("reference bytes parse");
    assert_eq!(end, reference_bytes.len());
    assert_eq!(to_fastnbt(&tree), to_fastnbt(&sample_doc()));
}

#[test]
fn float_payloads_round_trip_as_raw_bits() {
    let root = Nbt::Compound(vec![
        (b"f".to_vec(), Nbt::Float(1.5f32.to_bits())),
        (b"d".to_vec(), Nbt::Double((-0.25f64).to_bits())),
    ]);
    let bytes = encode_root(&Vec::new(), &root);
    let (_, tree, _) = parse_root(&bytes).expect("parses");
    assert_eq!(tree, root);
    let reference: fastnbt::Value = fastnbt::from_bytes(&bytes).expect("reads");
    assert_eq!(reference, to_fastnbt(&root));
}
