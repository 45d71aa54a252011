use c0::csv;
use c0::diff;
use c0::json::{self, Value};
use c0::{
    canonical, format_with, glyph, is_assigned, parse, tokenize, unescape, Builder, Document,
    Error, StreamReader, StreamWriter, Table, TokenType, Tokenizer,
};
use std::borrow::Cow;

// ---- tokens ----

#[test]
fn tokenize_splits_data_and_controls() {
    let toks = tokenize(b"\x1dusers\x1eAlice\x1f\x10\x1fx").unwrap();
    let kinds: Vec<TokenType> = toks.iter().map(|t| t.kind).collect();
    assert_eq!(
        kinds,
        vec![
            TokenType::Gs,
            TokenType::Data,
            TokenType::Rs,
            TokenType::Data,
            TokenType::Us,
            TokenType::Data,
            TokenType::Data,
        ]
    );
    // The escaped byte is a one-byte data token after the DLE.
    assert_eq!(toks[5].start, 14);
    assert_eq!(toks[5].size(), 1);
    assert_eq!(toks[1].value(b"\x1dusers\x1eAlice\x1f\x10\x1fx"), b"users");
}

#[test]
fn tokenize_reports_unassigned_code() {
    assert_eq!(
        tokenize(b"ab\x06cd"),
        Err(Error::UnassignedCode { byte: 0x06, position: 2 })
    );
}

#[test]
fn tokenize_reports_dangling_escape() {
    assert_eq!(tokenize(b"ab\x10"), Err(Error::UnexpectedEnd));
}

#[test]
fn tokenizer_stops_after_error() {
    let mut t = Tokenizer::new(b"a\x07b");
    assert!(matches!(t.next(), Some(Ok(_))));
    assert!(matches!(t.next(), Some(Err(Error::UnassignedCode { .. }))));
    assert!(t.next().is_none());
}

#[test]
fn assigned_codes() {
    assert!(is_assigned(0x1e));
    assert!(is_assigned(0x10));
    assert!(!is_assigned(0x06));
    assert!(!is_assigned(b'a'));
}

// ---- escaping and canonical form ----

#[test]
fn unescape_borrows_without_dle_and_decodes_with_it() {
    assert!(matches!(unescape(b"plain"), Cow::Borrowed(_)));
    assert_eq!(unescape(b"a\x10\x1fb").as_ref(), b"a\x1fb");
    // A DLE with nothing after it is dropped.
    assert_eq!(unescape(b"ab\x10").as_ref(), b"ab");
}

#[test]
fn canonical_rejects_framing_and_loose_escapes() {
    assert!(canonical(b"\x1dg\x1ea\x1fb"));
    assert!(!canonical(b"\x1ea\x17"));
    assert!(!canonical(b"\x1e\x10a"));
    assert!(!canonical(b"\x1ea\x06"));
}

#[test]
fn built_document_is_canonical_example() {
    let buf = Builder::build(|b| {
        b.file("db");
        b.group("t", Some(&["k", "v"]));
        b.record(&["x\u{1}y", ""]);
    });
    assert!(canonical(&buf));
}

// ---- builder ----

#[test]
fn builder_writes_exact_bytes() {
    let buf = Builder::build(|b| {
        b.group("g", Some(&["a", "b"]));
        b.record(&["1", "x\u{1f}"]);
        b.eot();
    });
    assert_eq!(buf, b"\x1dg\x01a\x1fb\x1e1\x1fx\x10\x1f\x04");
}

#[test]
fn builder_nested_and_references() {
    let mut b = Builder::new();
    b.record(&["k"]);
    b.nested(|n| {
        n.field("inner");
    });
    b.reference("other");
    b.section("sub", 2);
    b.block("text");
    b.item("it");
    b.etb_payload("p1");
    assert_eq!(
        b.as_bytes(),
        b"\x1ek\x02\x1finner\x03\x05other\x1d\x1dsub\x1etext\x1fit\x17p1"
    );
}

// ---- tables and documents ----

#[test]
fn record_fields_read_back_example() {
    let buf = Builder::build(|b| {
        b.group("g", None);
        b.record(&["a\u{2}b", "", "c"]);
    });
    let t = Table::new(&buf);
    let rec = t.record(0);
    assert_eq!(rec.field_count(), 3);
    let values: Vec<Vec<u8>> = rec.values().iter().map(|v| v.to_vec()).collect();
    assert_eq!(values, vec![b"a\x02b".to_vec(), b"".to_vec(), b"c".to_vec()]);
    assert_eq!(rec.raw(), b"a\x10\x02b\x1f\x1fc");
}

#[test]
fn document_group_accessors() {
    let buf = Builder::build(|b| {
        b.file("f");
        b.group("one", Some(&["h"]));
        b.record(&["1"]);
        b.record(&["2"]);
        b.group("two", None);
    });
    let doc = Document::new(&buf);
    assert_eq!(doc.group_names(), vec![b"one".as_ref(), b"two".as_ref()]);
    let g = doc.group(0);
    assert!(g.has_header());
    assert_eq!(g.record_count(), 2);
    assert_eq!(g.name(), b"one");
    assert!(!doc.group(1).has_header());
    assert_eq!(doc.groups().len(), 2);
}

// ---- stream mode ----

#[test]
fn stream_writer_blocks_read_back() {
    let mut w = StreamWriter::new(Vec::new());
    w.header(&["op", "arg"]).unwrap();
    w.record(&["create", "a1b2"]).unwrap();
    w.batch(|b| {
        b.record(&["name", "draft"]);
        b.record(&["tag", "alpha"]);
    })
    .unwrap();
    let bytes = w.into_inner();
    assert_eq!(
        bytes,
        b"\x01op\x1farg\x17\x1ecreate\x1fa1b2\x17\x1ename\x1fdraft\x1etag\x1falpha\x17"
    );
    let r = StreamReader::new(&bytes);
    assert!(!r.torn());
    assert_eq!(r.block_count(), 3);
    assert_eq!(r.block(1), b"\x1ecreate\x1fa1b2");
    assert_eq!(r.blocks().len(), 3);
    assert_eq!(r.committed_end(), bytes.len());
    assert_eq!(r.table().record_count(), 3);
}

#[test]
fn stream_torn_record_is_not_committed() {
    // Two committed records, then a record cut inside an escape.
    let bytes = b"\x1ea\x17\x1eb\x17\x1ec\x10";
    let r = StreamReader::new(bytes);
    assert!(r.torn());
    assert_eq!(r.committed(), b"\x1ea\x17\x1eb\x17");
    assert_eq!(r.tail(), b"\x1ec\x10");
    assert_eq!(r.block_count(), 2);
    assert_eq!(r.block(0), b"\x1ea");
    assert_eq!(r.block(1), b"\x1eb");
}

#[test]
fn stream_etb_inside_nested_scope_is_content() {
    let bytes = b"\x1e\x02x\x17y\x03\x17";
    let r = StreamReader::new(bytes);
    assert_eq!(r.block_count(), 1);
    assert_eq!(r.block(0), b"\x1e\x02x\x17y\x03");
}

// ---- pretty ----

#[test]
fn glyph_is_the_control_picture() {
    assert_eq!(glyph(0x1e), '\u{241e}');
    assert_eq!(glyph(0x00), '\u{2400}');
    assert_eq!(glyph(0x1f), '\u{241f}');
}

#[test]
fn format_lays_out_one_structure_per_line() {
    let buf = Builder::build(|b| {
        b.group("g", Some(&["a"]));
        b.record(&["1"]);
    });
    assert_eq!(c0::pretty::format(&buf), "\u{241d}g\n  \u{2401}a\n  \u{241e}1\n");
    assert_eq!(format_with(&buf, "\t"), "\u{241d}g\n\t\u{2401}a\n\t\u{241e}1\n");
}

#[test]
fn parse_trims_whitespace_next_to_controls() {
    assert_eq!(parse("\u{241e}  a b  \u{241f} c\n"), b"\x1ea b\x1fc");
    // Inside a nested scope everything is kept.
    assert_eq!(parse("\u{2402} x \u{2403}"), b"\x02 x \x03");
}

#[test]
fn format_replaces_ill_formed_text() {
    let s = c0::pretty::format(b"\x1e\xff");
    assert_eq!(s, "  \u{241e}\u{fffd}\n");
}

// ---- csv ----

#[test]
fn csv_reads_back_example() {
    let buf = csv::from_csv("h1,h2\r\n\"a\"\"b\",\n", "g");
    let t = Table::new(&buf);
    assert_eq!(t.name(), b"g");
    assert_eq!(t.headers(), vec![b"h1".as_ref(), b"h2".as_ref()]);
    assert_eq!(t.record(0).value(0).as_ref(), b"a\"b");
    assert_eq!(t.record(0).value(1).as_ref(), b"");
}

#[test]
fn csv_without_final_newline_keeps_last_row() {
    let buf = csv::from_csv("a\nb", "g");
    let t = Table::new(&buf);
    assert_eq!(t.record_count(), 1);
    assert_eq!(t.record(0).field(0), b"b");
}

#[test]
fn to_csv_of_built_table_example() {
    let buf = Builder::build(|b| {
        b.group("g", Some(&["k"]));
        b.record(&["say \"hi\""]);
        b.record(&["two\nlines"]);
    });
    assert_eq!(
        csv::to_csv(&buf),
        "k\n\"say \"\"hi\"\"\"\n\"two\nlines\"\n"
    );
}

#[test]
fn to_csv_reads_first_group_of_document() {
    let buf = Builder::build(|b| {
        b.file("f");
        b.group("first", None);
        b.record(&["1", "2"]);
        b.group("second", None);
        b.record(&["3"]);
    });
    assert_eq!(csv::to_csv(&buf), "1,2\n");
}

#[test]
fn to_csv_replaces_ill_formed_text() {
    assert_eq!(csv::to_csv(b"\x1dg\x1e\xff"), "\u{fffd}\n");
}

// ---- diff ----

#[test]
fn replace_reads_back_example() {
    let buf = diff::build(|b| {
        b.file("p", |b| {
            b.replace("", "a\u{1d}", "b", "c");
        });
    });
    assert_eq!(buf, b"\x1cp\x1da\x10\x1d\x1ab\x1fc");
    let edits = diff::parse(&buf);
    assert_eq!(edits.len(), 1);
    assert_eq!(edits[0].sections.len(), 1);
    assert_eq!(edits[0].sections[0].search_pattern(), b"a\x1dc");
    assert_eq!(edits[0].sections[0].replacement(), b"bc");
}

#[test]
fn apply_keeps_untargeted_files_example() {
    let buf = diff::build(|b| {
        b.file("b.txt", |b| {
            b.replace("", "old", "new", "");
        });
    });
    let files = vec![
        ("a.txt".to_string(), "old".to_string()),
        ("b.txt".to_string(), "an old line".to_string()),
        ("c.txt".to_string(), "old".to_string()),
    ];
    let out = diff::apply(&buf, &files).unwrap();
    assert_eq!(
        out,
        vec![
            ("a.txt".to_string(), "old".to_string()),
            ("b.txt".to_string(), "an new line".to_string()),
            ("c.txt".to_string(), "old".to_string()),
        ]
    );
}

#[test]
fn apply_reports_the_failing_section() {
    let buf = diff::build(|b| {
        b.file("f", |b| {
            b.replace("", "a", "b", "");
            b.replace("", "zz", "y", "");
        });
    });
    let files = vec![("f".to_string(), "abc".to_string())];
    assert_eq!(
        diff::apply(&buf, &files),
        Err(diff::DiffError::PatternNotFound { path: "f".to_string(), section: 1 })
    );
}

// ---- json ----

#[test]
fn to_value_of_records_and_empty_input() {
    let buf = Builder::build(|b| {
        b.group("r", None);
        b.record(&["1", "2", "3"]);
    });
    assert_eq!(
        json::to_value(&buf),
        Value::Object(vec![(
            "r".into(),
            Value::Array(vec![Value::Array(vec![
                Value::Str("1".into()),
                Value::Str("2".into()),
                Value::Str("3".into()),
            ])])
        )])
    );
    assert_eq!(json::to_value(b""), Value::Object(vec![]));
}

#[test]
fn from_value_writes_scalar_objects_and_strings() {
    let kv = Value::Object(vec![
        ("a".into(), Value::Str("1".into())),
        ("b".into(), Value::Str("x\u{1f}".into())),
    ]);
    assert_eq!(json::from_value(&kv, "cfg"), b"\x1dcfg\x1ea\x1f1\x1eb\x1fx\x10\x1f");
    let s = Value::Str("hi".into());
    assert_eq!(json::from_value(&s, "g"), b"\x1dg\x1ehi");
}

#[test]
fn from_value_writes_documents() {
    let v = Value::Object(vec![(
        "db".into(),
        Value::Object(vec![(
            "t".into(),
            Value::Array(vec![Value::Str("x".into())]),
        )]),
    )]);
    assert_eq!(json::from_value(&v, "unused"), b"\x1cdb\x1dt\x1ex");
}

#[test]
fn canonical_buffers_tokenize() {
    let buf = Builder::build(|b| {
        b.file("f");
        b.group("g", Some(&["a", "b"]));
        b.record(&["x\u{4}", "y"]);
    });
    assert!(canonical(&buf));
    assert!(tokenize(&buf).is_ok());
}

#[test]
fn pretty_document_round_trip_example() {
    let buf = Builder::build(|b| {
        b.file("db");
        b.group("users", Some(&["first name", "id"]));
        b.record(&["Ada  Lovelace", "1\u{1e}2"]);
        b.group("empty", None);
    });
    let text = format_with(&buf, " \t");
    assert_eq!(parse(&text), buf);
}

#[test]
fn tabular_array_reads_back_example() {
    let value = Value::Array(vec![
        Value::Object(vec![
            ("k".into(), Value::Str("a\u{1e}b".into())),
            ("v".into(), Value::Str("".into())),
        ]),
        Value::Object(vec![
            ("k".into(), Value::Str("c".into())),
            ("v".into(), Value::Str("d".into())),
        ]),
    ]);
    let buf = json::from_value(&value, "t");
    let t = Table::new(&buf);
    assert_eq!(t.name(), b"t");
    assert_eq!(t.headers(), vec![b"k".as_ref(), b"v".as_ref()]);
    assert_eq!(t.record_count(), 2);
    assert_eq!(t.record(0).value(0).as_ref(), b"a\x1eb");
    assert_eq!(t.record(0).value(1).as_ref(), b"");
    assert_eq!(t.record(1).value(1).as_ref(), b"d");
}

#[test]
fn from_json_rejects_bad_text() {
    assert!(json::from_json("{\"a\":", "g").is_err());
}

#[test]
fn to_json_value_and_back() {
    let v = Value::Object(vec![("k".into(), Value::Array(vec![Value::Str("x".into())]))]);
    let j = json::to_json_value(&v);
    assert_eq!(json::from_json_value(&j), v);
    assert_eq!(
        json::from_json_value(&json::JsonValue::Bool(false)),
        Value::Str("false".into())
    );
}

// ---- messages ----

#[test]
fn error_messages_read_as_sentences() {
    let e = Error::UnassignedCode { byte: 0x0e, position: 3 };
    assert_eq!(e.message(), "Unassigned control code 0x0e at position 3");
    let e = Error::UnassignedCode { byte: 0x1a, position: 1502 };
    assert_eq!(e.message(), "Unassigned control code 0x1a at position 1502");
    assert_eq!(
        Error::UnexpectedEnd.message(),
        "Unexpected end of input after DLE escape"
    );
}

#[test]
fn diff_error_messages_read_as_sentences() {
    let e = diff::DiffError::FileNotFound("foo.txt".to_string());
    assert_eq!(e.message(), "File not found: foo.txt");
    let e = diff::DiffError::PatternNotFound { path: "f.txt".to_string(), section: 0 };
    assert_eq!(e.message(), "Pattern not found in f.txt (section 0)");
    let e = diff::DiffError::PatternAmbiguous { path: "f.txt".to_string(), section: 12, count: 2 };
    assert_eq!(
        e.message(),
        "Pattern found 2 times in f.txt (section 12), expected exactly 1"
    );
}

#[test]
fn eot_ends_canonical_form() {
    let mut b = Builder::new();
    b.group("t", None).record(&["a\x10b"]);
    assert!(canonical(b.as_bytes()));
    b.eot();
    assert!(!canonical(b.as_bytes()));
}

// ---- laws on concrete values ----

#[test]
fn builder_calls_keep_canonical_form() {
    let buf = Builder::build(|b| {
        b.file("db");
        b.group("t", Some(&["k", "v"]));
        b.record(&["a\x1eb", "c"]);
        b.nested(|n| {
            n.field("x\x10y");
            n.item("i");
        });
        b.reference("t");
        b.section("deep", 2);
        b.block("text\x04more");
        b.item("one");
        b.field("two");
    });
    assert!(canonical(&buf));
}

#[test]
fn section_units_read_back_in_order() {
    let buf = diff::build(|b| {
        b.file("p.txt", |b| {
            b.section(|s| {
                s.sub("a\x1fb", "c");
                s.anchor("mid\x1a");
                s.sub("x", "y\x1d");
                s.anchor("end");
            });
        });
    });
    let edits = diff::parse(&buf);
    assert_eq!(edits.len(), 1);
    assert_eq!(edits[0].sections.len(), 1);
    assert_eq!(
        edits[0].sections[0].units,
        vec![
            diff::Unit::Sub { old: b"a\x1fb".to_vec(), new: b"c".to_vec() },
            diff::Unit::Anchor(b"mid\x1a".to_vec()),
            diff::Unit::Sub { old: b"x".to_vec(), new: b"y\x1d".to_vec() },
            diff::Unit::Anchor(b"end".to_vec()),
        ]
    );
}

#[test]
fn written_groups_are_indexed_by_name() {
    let buf = Builder::build(|b| {
        b.file("inventory");
        b.group("fruit", Some(&["name", "count"]));
        b.record(&["apple", "3"]);
        b.group("", None);
        b.record(&["x"]);
        b.group("tools", None);
    });
    let doc = Document::new(&buf);
    assert_eq!(doc.name(), b"inventory");
    assert_eq!(doc.group_count(), 3);
    assert_eq!(
        doc.group_names(),
        vec![b"fruit".as_ref(), b"".as_ref(), b"tools".as_ref()]
    );
}

#[test]
fn pretty_round_trip_keeps_non_ascii_text() {
    let buf = Builder::build(|b| {
        b.group("café", Some(&["名前", "amount"]));
        b.record(&["Zoë", "€12"]);
    });
    let text = format_with(&buf, "\t");
    assert_eq!(parse(&text), buf);
}

#[test]
fn aligned_layout_pads_columns_exactly() {
    let buf = Builder::build(|b| {
        b.group("t", Some(&["k", "value"]));
        b.record(&["long key", "1"]);
        b.record(&["é", "2"]);
    });
    let aligned = c0::format_mode(&buf, "  ", c0::FormatMode::Aligned);
    assert_eq!(
        aligned,
        "\u{241d}t\n  \u{2401}k       \u{241f}value\n  \u{241e}long key\u{241f}1\n  \u{241e}é       \u{241f}2\n"
    );
    let compact = c0::format_mode(&buf, "  ", c0::FormatMode::Compact);
    assert_eq!(compact, format_with(&buf, "  "));
    assert_eq!(parse(&aligned), buf);
}

#[test]
fn aligned_layout_splits_after_an_escaped_escape() {
    let buf = Builder::build(|b| {
        b.group("t", None);
        b.record(&["a\x10", "b"]);
        b.record(&["long", "c"]);
    });
    let aligned = c0::format_mode(&buf, "", c0::FormatMode::Aligned);
    assert_eq!(
        aligned,
        "\u{241d}t\n\u{241e}a\u{2410}\u{2410} \u{241f}b\n\u{241e}long\u{241f}c\n"
    );
    assert_eq!(parse(&aligned), buf);
}

#[test]
fn written_groups_read_back_as_tables() {
    let buf = Builder::build(|b| {
        b.file("inventory");
        b.group("fruit", Some(&["name", "count"]));
        b.record(&["apple", "3"]);
        b.record(&["pear\x1ekind", "12"]);
        b.group("tools", None);
        b.record(&["saw"]);
    });
    let doc = Document::new(&buf);
    let fruit = doc.group(0).table();
    assert_eq!(fruit.name(), b"fruit");
    assert_eq!(fruit.headers(), vec![b"name".as_ref(), b"count".as_ref()]);
    assert_eq!(fruit.record_count(), 2);
    assert_eq!(fruit.record(1).raw(), b"pear\x10\x1ekind\x1f12");
    assert_eq!(fruit.record(1).value(0).as_ref(), b"pear\x1ekind");
    let tools = doc.group(1).table();
    assert_eq!(tools.name(), b"tools");
    assert_eq!(tools.header_count(), 0);
    assert_eq!(tools.record_count(), 1);
    assert_eq!(tools.record(0).field(0), b"saw");
}

#[test]
fn laid_out_documents_read_back_in_every_mode() {
    let buf = Builder::build(|b| {
        b.file("db");
        b.group("people", Some(&["name", "city"]));
        b.record(&["Zoë", "Zürich"]);
        b.record(&["Al", "a\x1fb"]);
        b.group("empty", None);
        b.group("more", None);
        b.record(&["x"]);
    });
    for mode in [c0::FormatMode::Compact, c0::FormatMode::Aligned, c0::FormatMode::Spaced] {
        for indent in ["", "  ", "\t"] {
            let text = c0::format_mode(&buf, indent, mode);
            assert_eq!(parse(&text), buf);
        }
    }
}

#[test]
fn section_builder_units_read_back() {
    let buf = diff::build(|b| {
        b.file("a.txt", |b| {
            b.section(|s| {
                s.anchor("x");
            });
            b.section(|s| {
                s.sub("old", "new");
                s.anchor("tail");
            });
        });
    });
    let edits = diff::parse(&buf);
    assert_eq!(edits[0].sections.len(), 2);
    assert_eq!(edits[0].sections[0].units, vec![diff::Unit::Anchor(b"x".to_vec())]);
    assert_eq!(
        edits[0].sections[1].units,
        vec![
            diff::Unit::Sub { old: b"old".to_vec(), new: b"new".to_vec() },
            diff::Unit::Anchor(b"tail".to_vec()),
        ]
    );
}

#[test]
fn bare_group_shares_the_next_line_and_reads_back() {
    let buf = Builder::build(|b| {
        b.group("", None);
        b.group("", None);
        b.group("named", Some(&["k"]));
        b.record(&["v"]);
    });
    let text = format_with(&buf, "  ");
    assert!(text.starts_with("\u{241d}\u{241d}\u{241d}named\n"));
    for mode in [c0::FormatMode::Compact, c0::FormatMode::Aligned, c0::FormatMode::Spaced] {
        assert_eq!(parse(&c0::format_mode(&buf, "  ", mode)), buf);
    }
}
