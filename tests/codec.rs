use nsv::parallel::PARALLEL_THRESHOLD;
use nsv::{dumps, loads};

#[test]
fn test_simple_table() {
    let nsv = "col1\ncol2\n\na\nb\n\nc\nd\n";
    let result = loads(nsv);
    assert_eq!(
        result,
        vec![
            vec!["col1".to_string(), "col2".to_string()],
            vec!["a".to_string(), "b".to_string()],
            vec!["c".to_string(), "d".to_string()],
        ]
    );
}

#[test]
fn test_empty_fields() {
    let nsv = "a\n\\\nb\n\n\\\nc\n\\\n";
    let result = loads(nsv);
    assert_eq!(
        result,
        vec![
            vec!["a".to_string(), "".to_string(), "b".to_string()],
            vec!["".to_string(), "c".to_string(), "".to_string()],
        ]
    );
}

#[test]
fn test_escape_sequences() {
    let nsv = "Line 1\\nLine 2\nBackslash: \\\\\nNot a newline: \\\\n\n";
    let result = loads(nsv);
    assert_eq!(
        result,
        vec![vec![
            "Line 1\nLine 2".to_string(),
            "Backslash: \\".to_string(),
            "Not a newline: \\n".to_string()
        ],]
    );
}

#[test]
fn test_empty_rows() {
    let nsv = "first\n\n\n\nsecond\n";
    let result = loads(nsv);
    assert_eq!(
        result,
        vec![
            vec!["first".to_string()],
            vec![],
            vec![],
            vec!["second".to_string()],
        ]
    );
}

#[test]
fn test_multiple_empty_rows() {
    let nsv = "a\n\n\n\n\nb\n";
    let result = loads(nsv);
    assert_eq!(
        result,
        vec![
            vec!["a".to_string()],
            vec![],
            vec![],
            vec![],
            vec!["b".to_string()],
        ]
    );
}

#[test]
fn test_roundtrip() {
    let initial = vec![
        vec!["col1".to_string(), "col2".to_string()],
        vec!["a".to_string(), "b".to_string()],
        vec!["".to_string(), "value\\with\\backslash".to_string()],
        vec!["multi\nline".to_string(), "normal".to_string()],
    ];

    let encoded = dumps(&initial);
    let decoded = loads(&encoded);
    assert_eq!(initial, decoded);
}

#[test]
fn test_unrecognized_escape() {
    let nsv = "\\x41\\t\\r\n";
    let result = loads(nsv);
    assert_eq!(result, vec![vec!["\\x41\\t\\r".to_string()],]);
}

#[test]
fn test_dangling_backslash() {
    let nsv = "text\\\n";
    let result = loads(nsv);
    assert_eq!(result, vec![vec!["text".to_string()],]);
}

#[test]
fn test_empty_input() {
    let result = loads("");
    assert_eq!(result, Vec::<Vec<String>>::new());
}

#[test]
fn test_no_trailing_newline() {
    let nsv = "a\nb";
    let result = loads(nsv);
    assert_eq!(result, vec![vec!["a".to_string(), "b".to_string()],]);
}

#[test]
fn test_only_empty_rows() {
    let nsv = "\n\n\n\n";
    let result = loads(nsv);
    assert_eq!(
        result,
        vec![
            Vec::<String>::new(),
            Vec::<String>::new(),
            Vec::<String>::new(),
            Vec::<String>::new(),
        ]
    );
}

#[test]
fn test_starts_with_empty_row() {
    let nsv = "\n\nfirst\n";
    let result = loads(nsv);
    assert_eq!(
        result,
        vec![
            Vec::<String>::new(),
            Vec::<String>::new(),
            vec!["first".to_string()],
        ]
    );
}

#[test]
fn test_large_file() {
    // Generate ~10MB of data to verify parallel path is exercised
    // (needs to exceed PARALLEL_THRESHOLD of 64KB)
    let large_data: Vec<Vec<String>> = (0..100_000)
        .map(|i| vec![format!("row{}", i), format!("data{}", i)])
        .collect();

    let encoded = dumps(&large_data);

    // Verify it's large enough to trigger parallel parsing
    assert!(encoded.len() > PARALLEL_THRESHOLD);

    let decoded = loads(&encoded);
    assert_eq!(large_data, decoded);
}

#[test]
fn test_parallel_with_empty_rows() {
    // Test parallel path with empty rows mixed in
    let mut data = Vec::new();

    // Create enough data to exceed 64KB threshold
    for i in 0..10_000 {
        data.push(vec![format!("value{}", i)]);

        // Add empty row every 100 rows
        if i % 100 == 0 {
            data.push(vec![]);
        }
    }

    let encoded = dumps(&data);
    assert!(encoded.len() > PARALLEL_THRESHOLD);

    let decoded = loads(&encoded);
    assert_eq!(data, decoded);
}

#[test]
fn test_parallel_with_escape_sequences() {
    // Test parallel path with cells containing escape sequences
    let mut data = Vec::new();

    for i in 0..10_000 {
        data.push(vec![
            format!("Line 1\nLine 2 {}", i),
            format!("Backslash: \\ {}", i),
            "".to_string(),
        ]);
    }

    let encoded = dumps(&data);
    assert!(encoded.len() > PARALLEL_THRESHOLD);

    let decoded = loads(&encoded);
    assert_eq!(data, decoded);
}
