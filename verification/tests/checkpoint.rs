use h3_hrx::checkpoint::{advised_pages, dtype_bytes, keeps_mapped, Checkpoint, Dtype, Error};

/// A safetensors file: `(name, dtype, shape, bytes)` entries laid out in order.
fn checkpoint_bytes(
    tensors: &[(&str, &str, Vec<usize>, Vec<u8>)],
    header_override: Option<u64>,
) -> Vec<u8> {
    let mut header = String::from("{");
    let mut offset = 0usize;
    let mut blob = Vec::new();
    for (i, (name, dtype, shape, bytes)) in tensors.iter().enumerate() {
        if i > 0 {
            header.push(',');
        }
        let shape_text = shape.iter().map(|d| d.to_string()).collect::<Vec<_>>().join(",");
        header.push_str(&format!(
            "\"{name}\":{{\"dtype\":\"{dtype}\",\"shape\":[{shape_text}],\"data_offsets\":[{},{}]}}",
            offset,
            offset + bytes.len()
        ));
        offset += bytes.len();
        blob.extend_from_slice(bytes);
    }
    header.push('}');
    file_of(&header, header_override, &blob)
}

fn file_of(header: &str, header_override: Option<u64>, blob: &[u8]) -> Vec<u8> {
    let len = header_override.unwrap_or(header.len() as u64);
    let mut file = len.to_le_bytes().to_vec();
    file.extend_from_slice(header.as_bytes());
    file.extend_from_slice(blob);
    file
}

fn open(file: &[u8]) -> Result<Checkpoint<'_>, Error> {
    Checkpoint::open("c.safetensors".to_string(), file)
}

#[test]
fn reads_dtypes_shapes_and_bytes() {
    let file = checkpoint_bytes(
        &[
            ("gate", "I8", vec![2, 4], (0..8u8).collect()),
            ("scale", "F32", vec![2, 1], vec![0u8; 8]),
        ],
        None,
    );
    let ck = open(&file).unwrap();
    let gate = ck.at("gate").unwrap();
    assert_eq!(gate.dtype, Dtype::I8);
    assert_eq!(gate.shape, vec![2, 4]);
    assert_eq!((gate.rows(), gate.row_bytes(), gate.elements()), (2, 4, 8));
    assert_eq!(ck.bytes(gate), &(0..8u8).collect::<Vec<_>>()[..]);
    assert!(ck.has("scale") && !ck.has("nope"));
    // entries are ordered, so error reporting is deterministic
    assert_eq!(
        ck.entries().items().iter().map(|(name, _)| name.clone()).collect::<Vec<_>>(),
        vec!["gate", "scale"]
    );
    assert_eq!(ck.path(), "c.safetensors");
}

#[test]
fn a_missing_tensor_names_itself_and_the_file() {
    let file = checkpoint_bytes(&[("a", "F16", vec![1], vec![0, 0])], None);
    let ck = open(&file).unwrap();
    let message = ck.at("blocks.0.attn.qkv_proj.weight").unwrap_err().message();
    assert!(message.contains("blocks.0.attn.qkv_proj.weight"), "{message}");
    assert!(message.contains("c.safetensors"), "{message}");
    assert_eq!(message, "missing tensor blocks.0.attn.qkv_proj.weight in c.safetensors");
}

#[test]
fn a_type_or_shape_mismatch_reports_both_sides() {
    let file = checkpoint_bytes(&[("gate", "I8", vec![32, 8], vec![0u8; 256])], None);
    let ck = open(&file).unwrap();
    let message = ck.at_checked("gate", Dtype::F16, &[32, 8]).unwrap_err().message();
    assert!(message.contains("I8") && message.contains("F16"), "{message}");
    assert_eq!(message, "gate is I8 [32, 8], expected F16 [32, 8] in c.safetensors");
    // a free dimension matches anything, and the right type passes
    assert!(ck.at_checked("gate", Dtype::I8, &[-1, 8]).is_ok());
    assert!(ck.at_checked("gate", Dtype::I8, &[32, -1]).is_ok());
    assert!(ck.at_checked("gate", Dtype::I8, &[8, 32]).is_err());
    assert!(ck.at_checked("gate", Dtype::I8, &[32]).is_err());
}

#[test]
fn rejects_files_that_are_not_checkpoints() {
    assert!(matches!(open(b"abc"), Err(Error::Header { .. })));
    // a header length that runs past the file
    let bad = checkpoint_bytes(&[("a", "F16", vec![1], vec![0, 0])], Some(1 << 20));
    assert!(matches!(open(&bad), Err(Error::Header { .. })));
    // a file that cannot be opened at all says so in the same words everywhere
    let missing = Error::Open { path: "nope.safetensors".to_string(), source: "gone".to_string() };
    assert_eq!(missing.message(), "cannot open nope.safetensors: gone");
}

#[test]
fn rejects_a_span_past_the_data_block() {
    // declare more bytes than the blob holds
    let header = r#"{"a":{"dtype":"F32","shape":[64],"data_offsets":[0,256]}}"#;
    let file = file_of(header, None, &[0u8; 16]); // far short of 256
    let error = open(&file).err().unwrap();
    assert!(matches!(&error, Error::Header { path, .. } if path == "c.safetensors"));
    assert!(error.message().starts_with("c.safetensors is not a safetensors file: "));
}

#[test]
fn rejects_dimensions_that_are_not_whole_numbers() {
    for spelling in ["-1", "1.5", "true", "null", "\"2\"", "1e999", "NaN"] {
        let header =
            format!(r#"{{"a":{{"dtype":"F32","shape":[{spelling}],"data_offsets":[0,4]}}}}"#);
        let file = file_of(&header, None, &[0u8; 4]);
        assert!(open(&file).is_err(), "shape [{spelling}] should be rejected");
    }
}

#[test]
fn scalars_and_empty_tensors_are_valid() {
    let file = checkpoint_bytes(
        &[
            ("scalar", "F32", vec![], vec![0u8; 4]),
            ("empty", "BF16", vec![2, 0, 3], vec![]),
        ],
        None,
    );
    let ck = open(&file).unwrap();
    let scalar = ck.at("scalar").unwrap();
    assert_eq!((scalar.elements(), scalar.rows(), scalar.bytes), (1, 1, 4));
    let empty = ck.at("empty").unwrap();
    assert_eq!((empty.elements(), empty.bytes), (0, 0));
    assert!(ck.bytes(empty).is_empty());
}

#[test]
fn dtype_sizes_cover_what_a_checkpoint_holds() {
    let path = "x.safetensors";
    for (dtype, want) in [
        (Dtype::I8, 1),
        (Dtype::U8, 1),
        (Dtype::BOOL, 1),
        (Dtype::F16, 2),
        (Dtype::BF16, 2),
        (Dtype::F32, 4),
        (Dtype::I64, 8),
    ] {
        assert_eq!(dtype_bytes("t", dtype, path).unwrap(), want, "{dtype:?}");
    }
    let error = dtype_bytes("t", Dtype::F8_E5M2, path).unwrap_err();
    assert_eq!(
        error.message(),
        "t has an unsupported checkpoint dtype F8_E5M2 in x.safetensors"
    );
}

#[test]
fn madvise_rounds_outward_to_read_and_inward_to_drop() {
    let file = checkpoint_bytes(&[("a", "F32", vec![4096], vec![7u8; 16384])], None);
    let ck = open(&file).unwrap();
    assert_eq!(ck.bytes(ck.at("a").unwrap())[16383], 7);

    // a tensor of four pages that starts in the middle of one
    let (start, len, page) = (0x10_0000usize, 0x6000usize, 0x1000usize);
    let (first, bytes) = (start + 0x58, 16384usize);
    assert_eq!(
        advised_pages(start, len, first, bytes, page, true),
        Some((start, start + 0x5000))
    );
    assert_eq!(
        advised_pages(start, len, first, bytes, page, false),
        Some((start + 0x1000, start + 0x4000))
    );
    // An empty range is a no-op rather than a bad call.
    assert_eq!(advised_pages(start, len, first, 0, page, true), None);
    assert_eq!(advised_pages(start, len, first, 0, page, false), None);
    // A buffer that is not part of the mapping is left alone.
    assert_eq!(advised_pages(start, len, 0x80_0000, 256 * 1024, page, false), None);
    // and a range that starts inside the mapping but runs past its end is refused, not clamped
    assert_eq!(advised_pages(start, len, first, 1 << 30, page, false), None);
    // a range inside one page has no whole page to drop
    assert_eq!(advised_pages(start, len, start + 8, 16, page, false), None);
}

#[test]
fn only_a_setting_that_says_so_keeps_pages() {
    assert!(!keeps_mapped(None));
    assert!(!keeps_mapped(Some("")));
    assert!(!keeps_mapped(Some("0")));
    assert!(keeps_mapped(Some("1")));
}

#[test]
fn rejects_numbers_that_cannot_be_counted() {
    // eight tensors one behind the other, the last of which ends where counting does
    let each = (1u64 << 61) - 1;
    let tensors = (0..8u64)
        .map(|i| {
            format!(
                "\"t{i}\":{{\"dtype\":\"U8\",\"shape\":[{each}],\"data_offsets\":[{},{}]}}",
                i * each,
                (i + 1) * each
            )
        })
        .collect::<Vec<_>>()
        .join(",");
    let error = open(&file_of(&format!("{{{tensors}}}"), None, &[])).err().unwrap();
    assert_eq!(
        error.message(),
        "c.safetensors is not a safetensors file: a tensor of the header ends past counting"
    );
    // digits inside a string count nothing, whatever is escaped before them
    let header = r#"{"__metadata__":{"\\\"":"99999999999999999999999999"},"a":{"dtype":"U8","shape":[1],"data_offsets":[0,1]}}"#;
    assert!(open(&file_of(header, None, &[7])).is_ok());
}

#[test]
fn only_where_tensors_end_has_to_be_countable() {
    let huge = u64::MAX;
    // a member that is not looked at, an exponent, and a row of nothing
    let header = format!(
        "{{\"a\":{{\"dtype\":\"U8\",\"shape\":[1],\"data_offsets\":[0,1],\"x\":{huge},\"y\":[0.{huge},1e300],\"data\":[1,{huge}]}},\
         \"b\":{{\"dtype\":\"U8\",\"shape\":[0,{huge}],\"data_offsets\":[1,1]}}}}"
    );
    assert!(open(&file_of(&header, None, &[7])).is_ok());
    // a tensor given as a list
    assert!(open(&file_of(r#"{"a":["U8",[1],[0,1]]}"#, None, &[7])).is_ok());
    let header = format!("{{\"a\":[\"U8\",[1],[0,{huge}]]}}");
    assert!(open(&file_of(&header, None, &[7])).err().unwrap().message().ends_with("ends past counting"));
    // a tensor given again is what it is given as last
    let given = "{\"dtype\":\"U8\",\"shape\":[1],\"data_offsets\":[0,1]}";
    let past = format!("{{\"dtype\":\"U8\",\"shape\":[1],\"d\\u0061ta_offsets\":[0,{huge}]}}");
    assert!(open(&file_of(&format!("{{\"a\":{past},\"a\":{given}}}"), None, &[7])).is_ok());
    let error = open(&file_of(&format!("{{\"a\":{given},\"a\":{past}}}"), None, &[7])).err().unwrap();
    assert!(error.message().ends_with("ends past counting"));
}
