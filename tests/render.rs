use sand::render::{buffer_to_u32, buffer_to_u32_in_place, clear_buffer, draw_pixel, draw_square, Pixel};

#[test]
fn pixel_word_layout() {
    assert_eq!(Pixel::new(0x12, 0x34, 0x56, 0x78).to_u32(), 0x7812_3456);
    assert_eq!(Pixel::new(0, 0, 0, 255).to_u32(), 0xff00_0000);
    let p = Pixel::new(1, 2, 3, 4);
    assert_eq!((p.r, p.g, p.b, p.a), (1, 2, 3, 4));
}

#[test]
fn clear_fills_black() {
    let red = Pixel::new(255, 0, 0, 255);
    let mut buf = vec![vec![red; 3], vec![red; 2]];
    clear_buffer(&mut buf);
    assert_eq!(buf, vec![vec![Pixel::new(0, 0, 0, 255); 3], vec![Pixel::new(0, 0, 0, 255); 2]]);
}

#[test]
fn pixel_outside_is_ignored() {
    let black = Pixel::new(0, 0, 0, 255);
    let white = Pixel::new(255, 255, 255, 255);
    let mut buf = vec![vec![black; 3]; 2];
    draw_pixel(&mut buf, 2, 1, white);
    draw_pixel(&mut buf, 3, 0, white);
    draw_pixel(&mut buf, 0, 2, white);
    assert_eq!(buf, vec![vec![black; 3], vec![black, black, white]]);
}

#[test]
fn square_is_clipped() {
    let black = Pixel::new(0, 0, 0, 255);
    let c = Pixel::new(9, 9, 9, 9);
    let mut buf = vec![vec![black; 4]; 3];
    draw_square(&mut buf, 2, 1, 5, 5, c);
    assert_eq!(
        buf,
        vec![vec![black; 4], vec![black, black, c, c], vec![black, black, c, c]]
    );
}

#[test]
fn flattening_goes_row_by_row() {
    let a = Pixel::new(1, 0, 0, 0);
    let b = Pixel::new(0, 1, 0, 0);
    let buf = vec![vec![a, b], vec![b, a]];
    assert_eq!(buf_words(&buf), vec![0x10000, 0x100, 0x100, 0x10000]);
    let mut out = vec![0u32; 4];
    buffer_to_u32_in_place(&buf, &mut out);
    assert_eq!(out, vec![0x10000, 0x100, 0x100, 0x10000]);
    assert!(buffer_to_u32(&vec![]).is_empty());
}

fn buf_words(buf: &Vec<Vec<Pixel>>) -> Vec<u32> {
    buffer_to_u32(buf)
}

#[test]
fn empty_square_draws_nothing() {
    let black = Pixel::new(0, 0, 0, 255);
    let mut buf = vec![vec![black; 2]; 2];
    draw_square(&mut buf, usize::MAX, 0, 5, 0, Pixel::new(1, 1, 1, 1));
    assert_eq!(buf, vec![vec![black; 2]; 2]);
}
