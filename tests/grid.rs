use aoc::grid::ByteGridView;
use aoc::grid::GridError;
use aoc::grid::Position;

const SCHEMATIC: &str = "467..114...
...*.......
..35..633..
......#....
617*.......
.....+.58..
..592......
......755..
...$.*.....
.664.598...
";

#[test]
fn test_grid() {
    let grid = ByteGridView::parse(SCHEMATIC.trim()).unwrap();
    assert_eq!(grid.columns(), 11);
    assert_eq!(grid.rows(), 10);
    assert_eq!(grid.row(0), b"467..114...");
    assert_eq!(grid.row(1), b"...*.......");
    assert_eq!(grid.row(9), b".664.598...");
}

#[test]
fn small_grid_dimensions_and_offsets() {
    let grid = ByteGridView::parse("467..114...\n...*.......\n..35..633..").unwrap();
    assert_eq!(grid.columns(), 11);
    assert_eq!(grid.rows(), 3);
    assert_eq!(grid.row(0), b"467..114...");
    assert_eq!(grid.norm_to_row(12), 1);
    assert_eq!(grid.norm_to_col(12), 0);
    assert_eq!(grid.norm_to_row(27), 2);
    assert_eq!(grid.norm_to_col(27), 3);
}

#[test]
fn rows_rejoin_to_buffer() {
    let text = SCHEMATIC.trim();
    let grid = ByteGridView::parse(text).unwrap();
    let mut joined: Vec<u8> = Vec::new();
    for i in 0..grid.rows() {
        if i > 0 {
            joined.push(b'\n');
        }
        assert_eq!(grid.row(i).len(), grid.columns());
        joined.extend_from_slice(grid.row(i));
    }
    assert_eq!(joined, text.as_bytes());
}

#[test]
fn construction_rejects_malformed_buffers() {
    assert_eq!(
        ByteGridView::parse("ab\ncd\n").unwrap_err(),
        GridError::TrailingNewline
    );
    assert_eq!(
        ByteGridView::parse("abcd").unwrap_err(),
        GridError::MissingNewline
    );
    assert_eq!(ByteGridView::parse("").unwrap_err(), GridError::MissingNewline);
    assert_eq!(ByteGridView::parse("\n").unwrap_err(), GridError::TrailingNewline);
    assert_eq!(ByteGridView::parse("\nab").unwrap_err(), GridError::LeadingNewline);
    assert_eq!(ByteGridView::parse("\n\nab").unwrap_err(), GridError::LeadingNewline);
    assert!(ByteGridView::from_bytes(b"ab\ncd").is_ok());
}

#[test]
fn edges_of_a_grid() {
    let grid = ByteGridView::parse("abc\ndef").unwrap();
    assert!(grid.is_top_edge(0));
    assert!(!grid.is_top_edge(1));
    assert!(grid.is_bottom_edge(1));
    assert!(!grid.is_bottom_edge(0));
    assert!(grid.is_left_edge(0));
    assert!(!grid.is_left_edge(2));
    assert!(grid.is_right_edge(2));
    assert!(!grid.is_right_edge(1));
}

#[test]
fn four_neighbors_in_order() {
    let grid = ByteGridView::parse("abc\ndef\nghi").unwrap();
    assert_eq!(
        grid.non_diagonal_neighbors(1, 1),
        vec![(b'd', 1, 0), (b'f', 1, 2), (b'b', 0, 1), (b'h', 2, 1)]
    );
    assert_eq!(grid.non_diagonal_neighbors(0, 0), vec![(b'b', 0, 1), (b'd', 1, 0)]);
    assert_eq!(grid.non_diagonal_neighbors(2, 2), vec![(b'h', 2, 1), (b'f', 1, 2)]);
    assert_eq!(grid.non_diagonal_neighbors(0, 1).len(), 3);
}

#[test]
fn span_neighbors_include_symbol_once() {
    let grid = ByteGridView::parse("...*.......\n...1.......\n...........").unwrap();
    let around = grid.multi_column_neighbors_with_coordinates(1, 3, 4);
    assert_eq!(around.iter().filter(|&&e| e == (b'*', 0, 3)).count(), 1);
    assert_eq!(
        around,
        vec![
            (b'.', 0, 2),
            (b'*', 0, 3),
            (b'.', 0, 4),
            (b'.', 2, 2),
            (b'.', 2, 3),
            (b'.', 2, 4),
            (b'.', 1, 2),
            (b'.', 1, 4),
        ]
    );
}

#[test]
fn span_neighbors_clip_at_edges() {
    let grid = ByteGridView::parse(SCHEMATIC.trim()).unwrap();
    let around = grid.multi_column_neighbors(0, 0, 3);
    assert_eq!(around, b"...*.".to_vec());
    let coords = grid.multi_column_neighbors_with_coordinates(9, 8, 11);
    assert_eq!(
        coords,
        vec![(b'.', 8, 7), (b'.', 8, 8), (b'.', 8, 9), (b'.', 8, 10), (b'8', 9, 7)]
    );
}

#[test]
fn single_column_grid_span_matches_four_neighbors() {
    let grid = ByteGridView::parse("a\nb\nc").unwrap();
    let mut span = grid.multi_column_neighbors_with_coordinates(1, 0, 1);
    let mut four = grid.non_diagonal_neighbors(1, 0);
    span.sort();
    four.sort();
    assert_eq!(span, four);
}

#[test]
fn position_shifts() {
    let p = Position { y: 3, x: 5 };
    assert_eq!(p.right(), Position { y: 3, x: 6 });
    assert_eq!(p.left(), Position { y: 3, x: 4 });
    assert_eq!(p.up(), Position { y: 2, x: 5 });
    assert_eq!(p.down(), Position { y: 4, x: 5 });
}
