use wd_style::steps::{
    image_step_count, parse_bmp, reduce_steps, step_count, write_bmp, STEPS_ERR_ARGS, STEPS_ERR_BMP,
};

fn make_bmp(w: usize, h: usize) -> Vec<u8> {
    let rows: Vec<Vec<u8>> = (0..h)
        .map(|y| {
            let mut r = Vec::with_capacity(w * 3);
            for _ in 0..w {
                r.extend_from_slice(&[y as u8, 0, 0]);
            }
            r
        })
        .collect();
    write_bmp(w, h, 24, &rows)
}

#[test]
fn erkennt_und_kuerzt() {
    let big = make_bmp(400, 144);
    assert_eq!(image_step_count(&big, 5), 6);
    let out = reduce_steps(&big, 5).unwrap();
    let red = parse_bmp(&out).unwrap();
    assert_eq!((red.w, red.h), (400, 24));
    assert_eq!(red.rows[0][0], 0);

    let one = make_bmp(400, 24);
    assert_eq!(image_step_count(&one, 5), 1);
    let same = reduce_steps(&one, 5).unwrap();
    assert_eq!(same.len(), one.len());
}

#[test]
fn cell_ratio_rule() {
    // exactly 0.7 is one step; just below is six
    assert_eq!(step_count(70, 100, 1), 1);
    assert_eq!(step_count(69, 100, 1), 6);
    // the state count is at least one
    assert_eq!(step_count(70, 100, 0), 1);
    assert_eq!(step_count(70, 100, -3), 1);
    assert_eq!(step_count(140, 100, 2), 1);
    assert_eq!(step_count(139, 100, 2), 6);
}

#[test]
fn step_errors() {
    assert_eq!(image_step_count(&[0u8; 20], 1), STEPS_ERR_ARGS);
    assert_eq!(reduce_steps(&[0u8; 20], 1), Err(STEPS_ERR_ARGS));
    let mut bad = make_bmp(4, 4);
    bad[0] = b'X';
    assert_eq!(image_step_count(&bad, 1), STEPS_ERR_BMP);
    assert_eq!(reduce_steps(&bad, 1), Err(STEPS_ERR_BMP));
}

#[test]
fn written_bmp_reads_back() {
    // 5 pixels wide: rows padded to 16 bytes
    let rows: Vec<Vec<u8>> = (0..3).map(|y| (0..15).map(|i| (i + 20 * y) as u8).collect()).collect();
    let d = write_bmp(5, 3, 24, &rows);
    assert_eq!(d.len(), 54 + 16 * 3);
    assert_eq!(&d[0..2], b"BM");
    let b = parse_bmp(&d).unwrap();
    assert_eq!((b.w, b.h, b.bpp), (5, 3, 24));
    assert_eq!(b.rows, rows);
    // a short top band: one row at least
    let small = make_bmp(10, 5);
    let red = parse_bmp(&reduce_steps(&small, 5).unwrap()).unwrap();
    assert_eq!((red.w, red.h), (10, 1));
}

#[test]
fn written_bmp_keeps_first_rows() {
    // 32-bit, 3 pixels wide (12 bytes, no padding); only the first 2 of 4 rows
    let rows: Vec<Vec<u8>> = (0..4).map(|y| (0..12).map(|i| (i * 3 + y) as u8).collect()).collect();
    let d = write_bmp(3, 2, 32, &rows);
    assert_eq!(d.len(), 54 + 12 * 2);
    let b = parse_bmp(&d).unwrap();
    assert_eq!((b.w, b.h, b.bpp), (3, 2, 32));
    assert_eq!(b.rows, rows[..2].to_vec());
}
