use ruban_puzzle::grid::{empty_grids, Direction};
use ruban_puzzle::puzzle::puzzle_pieces;
use ruban_puzzle::render::format_grids;

fn text(bytes: Vec<u8>) -> String {
    String::from_utf8(bytes).expect("the text is ASCII")
}

#[test]
fn format_grids_writes_blocks_of_indented_rows() {
    let pieces = puzzle_pieces();
    let grids = pieces[0].get_grids(&Direction::X, 0, 0, 0);
    let expected = "  0 0 0 0 \n  0 0 0 0 \n  1 1 0 0 \n  0 0 0 0 \n\n\
                    \x20 0 0 0 0 \n  0 0 0 0 \n  1 0 0 0 \n  0 0 0 0 \n\n\
                    \x20 0 0 0 0 \n  1 0 0 0 \n  1 0 0 0 \n  0 0 0 0 \n\n\
                    \x20 0 0 0 0 \n  0 0 0 0 \n  1 1 0 0 \n  0 0 0 0 \n\n";
    assert_eq!(text(format_grids(&grids, 2)), expected);
}

#[test]
fn format_grids_writes_numbers_of_up_to_three_digits() {
    let mut grids = empty_grids();
    grids[0][0][0] = 9;
    grids[0][0][1] = 10;
    grids[0][0][2] = 99;
    grids[0][0][3] = 100;
    grids[1][2][3] = 255;
    grids[3][3][0] = 207;
    grids[3][3][3] = 70;
    let rendered = text(format_grids(&grids, 0));
    let lines: Vec<&str> = rendered.split('\n').collect();
    assert_eq!(lines.len(), 21);
    assert_eq!(lines[0], "9 10 99 100 ");
    assert_eq!(lines[1], "0 0 0 0 ");
    assert_eq!(lines[4], "");
    assert_eq!(lines[7], "0 0 0 255 ");
    assert_eq!(lines[9], "");
    assert_eq!(lines[14], "");
    assert_eq!(lines[18], "207 0 0 70 ");
    assert_eq!(lines[19], "");
    assert_eq!(lines[20], "");
}

#[test]
fn format_grids_indents_every_row() {
    let grids = empty_grids();
    let rendered = text(format_grids(&grids, 5));
    assert_eq!(rendered.len(), 16 * (5 + 8 + 1) + 4);
    for (index, line) in rendered.split('\n').enumerate() {
        if index < 20 && index % 5 != 4 {
            assert_eq!(line, "     0 0 0 0 ");
        } else {
            assert_eq!(line, "");
        }
    }
    let full = [[[255u8; 4]; 4]; 4];
    assert_eq!(format_grids(&full, 0).len(), 276);
}
