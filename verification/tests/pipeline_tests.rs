use array2b::effect::Effect;
use array2b::pipeline::{col_major_triples, row_major_triples, transf, transform, Rgb, Storage};

fn px(k: u16) -> Rgb {
    Rgb { red: k, green: k.wrapping_add(1), blue: k.wrapping_add(2) }
}

fn grid(n: usize) -> Vec<Rgb> {
    (0..n).map(|k| px(k as u16)).collect()
}

#[test]
fn effect_table_on_a_sample_cell() {
    // destination dimensions w = 5, h = 4; source cell (col, row) = (1, 2)
    assert_eq!(Effect::Rotate0.apply(5, 4, 1, 2), (1, 2));
    assert_eq!(Effect::Rotate90.apply(5, 4, 1, 2), (5 - 2 - 1, 1));
    assert_eq!(Effect::Rotate180.apply(5, 4, 1, 2), (5 - 1 - 1, 4 - 2 - 1));
    assert_eq!(Effect::Rotate270.apply(5, 4, 1, 2), (2, 4 - 1 - 1));
    assert_eq!(Effect::FlipHorizontal.apply(5, 4, 1, 2), (5 - 1 - 1, 2));
    assert_eq!(Effect::FlipVertical.apply(5, 4, 1, 2), (1, 4 - 2 - 1));
    assert_eq!(Effect::Transpose.apply(5, 4, 1, 2), (2, 1));
}

#[test]
fn rotate_90_on_a_2_by_3_image() {
    // source is 2 wide and 3 tall; the destination is 3 wide and 2 tall, and
    // per the coordinate table the source cell (col 0, row 0) lands at
    // destination (col 3 - 0 - 1, row 0) = (2, 0).
    let pixels = grid(6);
    let (out, w, h) = transform(pixels.clone(), 2, 3, Storage::RowMajor, Effect::Rotate90);
    assert_eq!((w, h), (3, 2));
    assert_eq!(out[0 * 3 + 2], pixels[0]);
    // the full destination buffer
    assert_eq!(
        out,
        vec![pixels[4], pixels[2], pixels[0], pixels[5], pixels[3], pixels[1]]
    );
}

#[test]
fn rotate_180_twice_restores_the_buffer() {
    let pixels = grid(6);
    let (once, w1, h1) = transform(pixels.clone(), 2, 3, Storage::RowMajor, Effect::Rotate180);
    assert_eq!((w1, h1), (2, 3));
    let (twice, w2, h2) = transform(once, w1, h1, Storage::RowMajor, Effect::Rotate180);
    assert_eq!((w2, h2), (2, 3));
    assert_eq!(twice, pixels);
}

#[test]
fn flip_horizontal_twice_restores_the_buffer() {
    let pixels = grid(15);
    let (once, w1, h1) = transform(pixels.clone(), 5, 3, Storage::RowMajor, Effect::FlipHorizontal);
    let (twice, _, _) = transform(once, w1, h1, Storage::RowMajor, Effect::FlipHorizontal);
    assert_eq!(twice, pixels);
}

#[test]
fn flip_vertical_twice_restores_the_buffer() {
    let pixels = grid(15);
    let (once, w1, h1) = transform(pixels.clone(), 5, 3, Storage::RowMajor, Effect::FlipVertical);
    let (twice, _, _) = transform(once, w1, h1, Storage::RowMajor, Effect::FlipVertical);
    assert_eq!(twice, pixels);
}

#[test]
fn transpose_twice_restores_buffer_and_dimensions() {
    let pixels = grid(6);
    let (once, w1, h1) = transform(pixels.clone(), 2, 3, Storage::RowMajor, Effect::Transpose);
    assert_eq!((w1, h1), (3, 2));
    assert_eq!(
        once,
        vec![pixels[0], pixels[2], pixels[4], pixels[1], pixels[3], pixels[5]]
    );
    let (twice, w2, h2) = transform(once, w1, h1, Storage::RowMajor, Effect::Transpose);
    assert_eq!((w2, h2), (2, 3));
    assert_eq!(twice, pixels);
}

#[test]
fn every_effect_permutes_the_source_values() {
    // with pairwise distinct, nonzero source values, each destination cell
    // holds exactly one source value and none keeps the background fill
    let effects = [
        Effect::Rotate0,
        Effect::Rotate90,
        Effect::Rotate180,
        Effect::Rotate270,
        Effect::FlipHorizontal,
        Effect::FlipVertical,
        Effect::Transpose,
    ];
    let pixels: Vec<Rgb> = (1..=12).map(|k| px(k as u16)).collect();
    for effect in effects {
        let (out, w, h) = transform(pixels.clone(), 4, 3, Storage::RowMajor, effect);
        assert_eq!(w * h, 12);
        let mut sorted_out: Vec<u16> = out.iter().map(|p| p.red).collect();
        sorted_out.sort();
        let mut sorted_src: Vec<u16> = pixels.iter().map(|p| p.red).collect();
        sorted_src.sort();
        assert_eq!(sorted_out, sorted_src);
        assert!(out.iter().all(|p| *p != (Rgb { red: 0, green: 0, blue: 0 })));
    }
}

#[test]
fn storage_modes_give_identical_output() {
    // a square image whose height the derived band size (51 for these pixels)
    // divides, so that block-major traversal is allowed too
    let n = 51usize;
    let pixels: Vec<Rgb> = (0..n * n).map(|k| px((k % 60000) as u16)).collect();
    for effect in [Effect::Rotate90, Effect::Rotate180, Effect::FlipHorizontal, Effect::Transpose]
    {
        let (rm, w1, h1) = transform(pixels.clone(), n, n, Storage::RowMajor, effect);
        let (cm, w2, h2) = transform(pixels.clone(), n, n, Storage::ColMajor, effect);
        let (bm, w3, h3) = transform(pixels.clone(), n, n, Storage::BlockMajor, effect);
        assert_eq!((w1, h1), (w2, h2));
        assert_eq!((w1, h1), (w3, h3));
        assert_eq!(rm, cm);
        assert_eq!(rm, bm);
    }
}

#[test]
fn traversal_order_does_not_change_the_result() {
    // scattering the same triples in reverse order writes the same buffer
    let pixels = grid(12);
    let ts = row_major_triples(&pixels, 4, 3);
    let mut reversed = ts.clone();
    reversed.reverse();
    let forward = transf(&ts, Effect::Rotate270, 3, 4);
    let backward = transf(&reversed, Effect::Rotate270, 3, 4);
    assert_eq!(forward, backward);
}

#[test]
fn col_major_triples_visit_columns_first() {
    let pixels = grid(6);
    let ts = col_major_triples(&pixels, 2, 3);
    let expect = vec![
        (0, 0, pixels[0]),
        (1, 0, pixels[2]),
        (2, 0, pixels[4]),
        (0, 1, pixels[1]),
        (1, 1, pixels[3]),
        (2, 1, pixels[5]),
    ];
    assert_eq!(ts, expect);
}

#[test]
fn row_major_triples_visit_rows_first() {
    let pixels = grid(6);
    let ts = row_major_triples(&pixels, 2, 3);
    let expect = vec![
        (0, 0, pixels[0]),
        (0, 1, pixels[1]),
        (1, 0, pixels[2]),
        (1, 1, pixels[3]),
        (2, 0, pixels[4]),
        (2, 1, pixels[5]),
    ];
    assert_eq!(ts, expect);
}

#[test]
fn identity_effect_keeps_the_buffer() {
    let pixels = grid(20);
    let (out, w, h) = transform(pixels.clone(), 5, 4, Storage::ColMajor, Effect::Rotate0);
    assert_eq!((w, h), (5, 4));
    assert_eq!(out, pixels);
}

#[test]
fn rotate_90_and_270_undo_each_other() {
    let pixels = grid(12);
    let (once, w1, h1) = transform(pixels.clone(), 4, 3, Storage::RowMajor, Effect::Rotate90);
    assert_eq!((w1, h1), (3, 4));
    let (back, w2, h2) = transform(once, w1, h1, Storage::RowMajor, Effect::Rotate270);
    assert_eq!((w2, h2), (4, 3));
    assert_eq!(back, pixels);
}
