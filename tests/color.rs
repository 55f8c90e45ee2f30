use game2048::board::Board;
use game2048::color::tile_color;

#[test]
fn colours_of_the_table() {
    assert_eq!(tile_color(None), [0x00, 0x00, 0x00, 0xff]);
    assert_eq!(tile_color(Some(2)), [0xff, 0xf4, 0xea, 0xff]);
    assert_eq!(tile_color(Some(64)), [0xf7, 0x5f, 0x3b, 0xff]);
    assert_eq!(tile_color(Some(2048)), [0xed, 0xc2, 0x2e, 0xff]);
    assert_eq!(tile_color(Some(4096)), [0x48, 0xb2, 0xe8, 0xff]);
    assert_eq!(tile_color(Some(3)), [0x48, 0xb2, 0xe8, 0xff]);
}

#[test]
fn draw_paints_each_cell_as_a_square() {
    let mut cells = [[None; 4]; 4];
    cells[0][0] = Some(2);
    cells[1][0] = Some(4);
    cells[3][3] = Some(8);
    let b = Board::from_cells(cells);
    let width = 8;
    let mut frame = vec![7u8; width * width * 4];
    b.draw(&mut frame, width);
    let pixel = |x: usize, y: usize| frame[(y * width + x) * 4..(y * width + x) * 4 + 4].to_vec();
    assert_eq!(pixel(0, 0), vec![0xff, 0xf4, 0xea, 0xff]);
    assert_eq!(pixel(1, 1), vec![0xff, 0xf4, 0xea, 0xff]);
    assert_eq!(pixel(2, 0), vec![0xee, 0xe1, 0xc9, 0xff]);
    assert_eq!(pixel(3, 1), vec![0xee, 0xe1, 0xc9, 0xff]);
    assert_eq!(pixel(0, 2), vec![0x00, 0x00, 0x00, 0xff]);
    assert_eq!(pixel(7, 7), vec![0xf3, 0xb2, 0x7a, 0xff]);
    assert_eq!(pixel(6, 6), vec![0xf3, 0xb2, 0x7a, 0xff]);
    assert!(frame.iter().all(|&b| b != 7));
}

#[test]
fn draw_leaves_bytes_outside_the_cells() {
    let b = Board::from_cells([[Some(2); 4]; 4]);
    let width = 6;
    let mut frame = vec![7u8; width * width * 4];
    b.draw(&mut frame, width);
    assert_eq!(frame[0..4].to_vec(), vec![0xff, 0xf4, 0xea, 0xff]);
    let last = (5 * width + 5) * 4;
    assert_eq!(frame[last..last + 4].to_vec(), vec![7, 7, 7, 7]);
}
