use nsv::check::{check, Warning, WarningKind};
use nsv::encode::encode_bytes;
use nsv::index::{LazyIndex, ProjectedIndex};
use nsv::parallel::decode_bytes;
use nsv::project::{decode_projected, decode_projected_parallel};

fn project_by_hand(doc: &[Vec<Vec<u8>>], cols: &[usize]) -> Vec<Vec<Vec<u8>>> {
    doc.iter()
        .map(|row| {
            cols.iter()
                .map(|&c| if c < row.len() { row[c].clone() } else { Vec::new() })
                .collect()
        })
        .collect()
}

fn table() -> Vec<u8> {
    b"a\nb\nc\n\nd\n\\\n\n\nx\\ny\nz\\\\\nw\nextra\n\nlast".to_vec()
}

#[test]
fn projection_reorders_repeats_and_pads() {
    let input = table();
    let cols = [2usize, 0, 2, 7];
    let expected = vec![
        vec![b"c".to_vec(), b"a".to_vec(), b"c".to_vec(), vec![]],
        vec![vec![], b"d".to_vec(), vec![], vec![]],
        vec![vec![], vec![], vec![], vec![]],
        vec![b"w".to_vec(), b"x\ny".to_vec(), b"w".to_vec(), vec![]],
        vec![vec![], b"last".to_vec(), vec![], vec![]],
    ];
    assert_eq!(decode_projected(&input, &cols), expected);
    assert_eq!(decode_projected(&input, &cols), project_by_hand(&decode_bytes(&input), &cols));
}

#[test]
fn projection_with_no_columns_keeps_rows() {
    let input = table();
    let rows = decode_projected(&input, &[]);
    assert_eq!(rows.len(), 5);
    assert!(rows.iter().all(|r| r.is_empty()));
}

#[test]
fn projection_agrees_with_decode_for_every_worker_count() {
    let mut d: Vec<Vec<Vec<u8>>> = Vec::new();
    for i in 0..300 {
        let width = i % 5;
        d.push((0..width).map(|j| format!("{}:{}\n", i, j).into_bytes()).collect());
    }
    let input = encode_bytes(&d);
    let cols = [4usize, 1, 1, 0, usize::MAX];
    let expected = project_by_hand(&decode_bytes(&input), &cols);
    for workers in 0..9 {
        assert_eq!(decode_projected_parallel(&input, &cols, workers), expected);
    }
}

#[test]
fn projection_of_large_input() {
    let mut d: Vec<Vec<Vec<u8>>> = Vec::new();
    for i in 0..15_000 {
        d.push(vec![format!("k{}", i).into_bytes(), b"v\\".to_vec(), format!("{}", i * 3).into_bytes()]);
    }
    let input = encode_bytes(&d);
    let cols = [2usize, 0];
    assert_eq!(decode_projected(&input, &cols), project_by_hand(&d, &cols));
}

#[test]
fn lazy_index_reads_cells_on_demand() {
    let input = table();
    let index = LazyIndex::new(&input);
    assert_eq!(index.row_count(), 5);
    assert_eq!(index.col_count(0), Some(3));
    assert_eq!(index.col_count(2), Some(0));
    assert_eq!(index.col_count(5), None);
    assert_eq!(index.get(1, 1), Some(Vec::new()));
    assert_eq!(index.get_raw(1, 1), Some(&b"\\"[..]));
    assert_eq!(index.get(3, 0), Some(b"x\ny".to_vec()));
    assert_eq!(index.get_raw(3, 0), Some(&b"x\\ny"[..]));
    assert_eq!(index.get(3, 1), Some(b"z\\".to_vec()));
    assert_eq!(index.get(4, 0), Some(b"last".to_vec()));
    assert_eq!(index.get(0, 3), None);
    assert_eq!(index.get(9, 0), None);
    assert_eq!(index.get_raw(2, 0), None);
}

#[test]
fn lazy_index_projects_like_decode() {
    let input = table();
    let index = LazyIndex::new(&input);
    let cols = [3usize, 1, 0, 1];
    assert_eq!(index.project(&cols), project_by_hand(&decode_bytes(&input), &cols));
}

#[test]
fn lazy_index_is_the_same_for_every_worker_count() {
    let mut d: Vec<Vec<Vec<u8>>> = Vec::new();
    for i in 0..200 {
        d.push(vec![format!("{}", i).into_bytes(); i % 4]);
    }
    let input = encode_bytes(&d);
    for workers in 0..10 {
        let index = LazyIndex::with_workers(&input, workers);
        assert_eq!(index.row_count(), d.len());
        for (r, row) in d.iter().enumerate() {
            assert_eq!(index.col_count(r), Some(row.len()));
            for (c, cell) in row.iter().enumerate() {
                assert_eq!(index.get(r, c).as_ref(), Some(cell));
            }
        }
    }
}

fn warning(kind: WarningKind, pos: usize, line: usize, col: usize) -> Warning {
    Warning { kind, pos, line, col }
}

#[test]
fn check_dangling_and_missing_terminal_lf() {
    assert_eq!(
        check(b"text\\"),
        vec![
            warning(WarningKind::DanglingBackslash, 4, 1, 5),
            warning(WarningKind::NoTerminalLf, 5, 1, 6),
        ]
    );
}

#[test]
fn check_unknown_escape_positions() {
    assert_eq!(
        check(b"ok\n\nab\\x\\n\\\\\n\\t\n"),
        vec![
            warning(WarningKind::UnknownEscape(b'x'), 6, 3, 3),
            warning(WarningKind::UnknownEscape(b't'), 13, 4, 1),
        ]
    );
}

#[test]
fn check_accepts_canonical_output() {
    assert_eq!(check(b""), Vec::<Warning>::new());
    assert_eq!(check(b"a\n\\\nb\n\n"), Vec::<Warning>::new());
    assert_eq!(check(b"x\\\n\n"), vec![warning(WarningKind::DanglingBackslash, 1, 1, 2)]);
}

#[test]
fn check_does_not_change_decoding() {
    let inputs: Vec<&[u8]> = vec![b"text\\", b"\\q\n\n", b"a\nb", b"\\", b""];
    for input in inputs {
        let before = decode_bytes(input);
        let _ = check(input);
        assert_eq!(decode_bytes(input), before);
    }
}

#[test]
fn projected_index_reads_requested_columns() {
    let input = table();
    let cols = [1usize, 0, 1, 9];
    let index = ProjectedIndex::new(&input, &cols);
    assert_eq!(index.row_count(), 5);
    assert_eq!(index.get(0, 0), Some(b"b".to_vec()));
    assert_eq!(index.get(0, 1), Some(b"a".to_vec()));
    assert_eq!(index.get(0, 2), Some(b"b".to_vec()));
    assert_eq!(index.get(0, 3), Some(Vec::new()));
    assert_eq!(index.get_raw(1, 0), Some(&b"\\"[..]));
    assert_eq!(index.get(1, 0), Some(Vec::new()));
    assert_eq!(index.get_raw(3, 1), Some(&b"x\\ny"[..]));
    assert_eq!(index.get(3, 1), Some(b"x\ny".to_vec()));
    assert_eq!(index.get(3, 4), None);
    assert_eq!(index.get(5, 0), None);
    assert_eq!(index.rows(), project_by_hand(&decode_bytes(&input), &cols));
}

#[test]
fn projected_index_without_columns_or_rows() {
    let empty = ProjectedIndex::new(b"", &[0]);
    assert_eq!(empty.row_count(), 0);
    assert_eq!(empty.get(0, 0), None);
    let input = table();
    let none = ProjectedIndex::new(&input, &[]);
    assert_eq!(none.row_count(), 5);
    assert_eq!(none.get(0, 0), None);
    assert_eq!(none.rows(), vec![Vec::<Vec<u8>>::new(); 5]);
}

#[test]
fn projected_index_agrees_with_projected_decode() {
    let mut d: Vec<Vec<Vec<u8>>> = Vec::new();
    for i in 0..120 {
        d.push((0..(i % 6)).map(|j| format!("{}\\{}", i, j).into_bytes()).collect());
    }
    let input = encode_bytes(&d);
    let cols = [5usize, 2, 2, 0];
    let index = ProjectedIndex::new(&input, &cols);
    assert_eq!(index.rows(), decode_projected(&input, &cols));
}
