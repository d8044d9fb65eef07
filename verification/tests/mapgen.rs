use quake_alert::geo::Marker;
use quake_alert::intensity::marker_rgb;
use quake_alert::mapgen::{
    bounds, count_within, encode_pixels, encode_webp, encoded, marker_radii, markers_drawing,
    pick_zoom, quake_drawing, read_webp, Bounds, Focus, Pixels, WebpError, BLACK, FIT_PADDING,
    FIT_ZOOM_MAX, FIT_ZOOM_MIN, FOCUS_ZOOM_MIN, MAP_HEIGHT, MAP_WIDTH, WHITE,
};
use quake_alert::reading::Real;
use std::f64::consts::PI;

fn degrees(value: f64) -> Real {
    Real { bits: value.to_bits() }
}

fn marker((latitude, longitude, scale): (f64, f64, i32)) -> Marker {
    Marker {
        latitude: degrees(latitude),
        longitude: degrees(longitude),
        scale,
    }
}

fn markers(list: &[(f64, f64, i32)]) -> Vec<Marker> {
    list.iter().map(|m| marker(*m)).collect()
}

fn plain(b: Bounds) -> (f64, f64, f64, f64) {
    let f = |r: Real| f64::from_bits(r.bits);
    (f(b.lat_min), f(b.lat_max), f(b.lon_min), f(b.lon_max))
}

fn view(b: (f64, f64, f64, f64)) -> Bounds {
    Bounds {
        lat_min: degrees(b.0),
        lat_max: degrees(b.1),
        lon_min: degrees(b.2),
        lon_max: degrees(b.3),
    }
}

fn lon_to_x(lon: f64, zoom: u8) -> f64 {
    ((lon + 180.0) / 360.0) * 2f64.powi(zoom.into())
}

fn lat_to_y(lat: f64, zoom: u8) -> f64 {
    let rad = lat.to_radians();
    (1.0 - (rad.tan() + 1.0 / rad.cos()).ln() / PI) / 2.0 * 2f64.powi(zoom.into())
}

fn fit_zoom(lat_min: f64, lat_max: f64, lon_min: f64, lon_max: f64) -> u8 {
    let mut fits = [false; 5];
    for (i, slot) in fits.iter_mut().enumerate() {
        let z = FIT_ZOOM_MIN + i as u8;
        let width_px = (lon_to_x(lon_max, z) - lon_to_x(lon_min, z)) * 256.0;
        let height_px = (lat_to_y(lat_min, z) - lat_to_y(lat_max, z)) * 256.0;
        *slot = width_px <= f64::from(MAP_WIDTH - FIT_PADDING)
            && height_px <= f64::from(MAP_HEIGHT - FIT_PADDING);
    }
    pick_zoom(&fits)
}

fn zoom_of(b: (f64, f64, f64, f64)) -> u8 {
    fit_zoom(b.0, b.1, b.2, b.3)
}

fn focus_bounds(
    anchor: Option<(f64, f64)>,
    list: &[(f64, f64, i32)],
) -> (f64, f64, f64, f64) {
    let anchor = anchor.map(|(lat, lon)| (degrees(lat), degrees(lon)));
    let list = markers(list);
    let mut focus = Focus::start(anchor, &list);
    while let Some(next) = focus.narrow(zoom_of(plain(focus.best)), anchor, &list) {
        focus = next;
    }
    plain(focus.best)
}

/// 大分県沖あたりを震源に見立てた座標。
const EPICENTER: (f64, f64) = (33.2, 131.6);

#[test]
fn focus_drops_distant_weak_markers() {
    // 震源付近に強い揺れ、遠方（近畿・東北）に震度1〜2が散っているケース。
    // 全部を収めると日本全体まで引いてしまうので、弱い方から枠外にして寄せる。
    let markers = vec![
        (33.2, 131.6, 45),
        (33.5, 131.4, 40),
        (34.7, 135.5, 20), // 大阪付近・震度2
        (39.7, 140.1, 10), // 秋田付近・震度1
    ];
    let b = focus_bounds(Some(EPICENTER), &markers);

    assert!(b.1 < 39.0, "遠方の震度1が枠から外れる: {b:?}");
    assert!(b.3 < 140.0, "遠方の震度1が枠から外れる: {b:?}");
    // 震源は必ず枠内に残る。
    assert!(b.0 <= EPICENTER.0 && EPICENTER.0 <= b.1);
    assert!(b.2 <= EPICENTER.1 && EPICENTER.1 <= b.3);
    assert!(zoom_of(b) >= FOCUS_ZOOM_MIN, "震源付近まで寄る: {b:?}");
}

#[test]
fn focus_keeps_bounds_when_already_close() {
    // 元から狭い範囲に収まっていれば絞り込みは働かない。
    let markers = vec![(33.2, 131.6, 45), (33.5, 131.4, 30)];
    assert_eq!(
        focus_bounds(Some(EPICENTER), &markers),
        (33.2, 33.5, 131.4, 131.6)
    );
}

#[test]
fn focus_keeps_bounds_when_strong_shaking_is_wide() {
    // 強い揺れ自体が広域に及ぶ地震は、絞っても引きのまま＝広く写すのが正しい。
    let markers = vec![(33.2, 131.6, 50), (39.7, 140.1, 50)];
    assert_eq!(
        focus_bounds(Some(EPICENTER), &markers),
        (33.2, 39.7, 131.6, 140.1)
    );
}

#[test]
fn focus_keeps_bounds_when_all_markers_are_weak() {
    // 全地点が震度1（深発地震の異常震域など）では、絞ると震源1点だけになり
    // 揺れの広がりが見えなくなるため、枠は広いまま維持する。
    let markers = vec![(33.2, 131.6, 10), (39.7, 140.1, 10)];
    assert_eq!(
        focus_bounds(Some(EPICENTER), &markers),
        (33.2, 39.7, 131.6, 140.1)
    );
}

#[test]
fn focus_works_without_epicenter() {
    // 震源不明（震度速報）でも、強く揺れた地域へ寄せる。
    let markers = vec![(33.2, 131.6, 45), (33.5, 131.4, 40), (39.7, 140.1, 10)];
    let b = focus_bounds(None, &markers);
    assert!(b.1 < 39.0, "遠方の震度1が枠から外れる: {b:?}");
    assert!(
        zoom_of(b) >= FOCUS_ZOOM_MIN,
        "強い揺れの範囲まで寄る: {b:?}"
    );
}

#[test]
fn focus_without_anything_shows_nothing() {
    assert_eq!(focus_bounds(None, &[]), (0.0, 0.0, 0.0, 0.0));
    assert_eq!(focus_bounds(Some(EPICENTER), &[]), (33.2, 33.2, 131.6, 131.6));
    assert!(bounds(&[]).is_none());
    let b = bounds(&[(degrees(1.0), degrees(f64::NAN)), (degrees(-1.0), degrees(2.0))]).unwrap();
    assert_eq!(plain(b), (-1.0, 1.0, 2.0, 2.0));
}

#[test]
fn radii_count_ignores_markers_outside_the_view() {
    // 枠外のマーカーは画面外にクリップされるので、半径の判断には数えない。
    let markers = markers(&[
        (33.2, 131.6, 45),
        (33.5, 131.4, 40),
        (39.7, 140.1, 10), // 枠外
    ]);
    let view = view((33.2, 33.5, 131.4, 131.6));
    assert_eq!(count_within(view, &markers), 2);
}

#[test]
fn fit_zoom_is_clamped() {
    // ほぼ1点なら上限、日本全域なら下限。
    assert_eq!(fit_zoom(33.2, 33.2, 131.6, 131.6), FIT_ZOOM_MAX);
    assert_eq!(fit_zoom(24.0, 45.5, 123.0, 149.0), FIT_ZOOM_MIN);
}

#[test]
fn the_largest_fitting_zoom_is_picked() {
    assert_eq!(pick_zoom(&[true, true, true, false, false]), 6);
    assert_eq!(pick_zoom(&[false, false, false, false, true]), 8);
    assert_eq!(pick_zoom(&[false; 5]), 4);
}

#[test]
fn markers_shrink_with_their_number() {
    let expected = [
        (0, (120, 90)),
        (15, (120, 90)),
        (16, (90, 65)),
        (60, (90, 65)),
        (61, (70, 50)),
        (200, (70, 50)),
        (201, (55, 40)),
    ];
    for (count, radii) in expected {
        assert_eq!(marker_radii(count), radii);
    }
}

#[test]
fn strong_shaking_is_drawn_on_top() {
    let list = markers(&[(33.2, 131.6, 45), (33.5, 131.4, 10), (33.4, 131.5, 10)]);
    let v = view((33.0, 34.0, 131.0, 132.0));
    let drawing = markers_drawing(&list, v).unwrap();
    assert_eq!(drawing.view, Some(v));
    let order: Vec<f64> = drawing
        .circles
        .iter()
        .map(|c| f64::from_bits(c.latitude.bits))
        .collect();
    assert_eq!(order, [33.5, 33.5, 33.4, 33.4, 33.2, 33.2]);
    assert_eq!(drawing.circles[0].color, WHITE);
    assert_eq!(drawing.circles[0].radius, 120);
    assert_eq!(drawing.circles[5].color, marker_rgb(45));
    assert_eq!(drawing.circles[5].radius, 90);
    assert!(markers_drawing(&[], v).is_none());

    let epicenter = marker((33.2, 131.6, 50));
    let drawing = quake_drawing(epicenter, &list, v);
    assert_eq!(drawing.circles.len(), 8);
    assert_eq!(drawing.circles[6].color, BLACK);
    assert_eq!(drawing.circles[6].radius, 140);
    assert_eq!(drawing.circles[7].color, marker_rgb(50));
    assert_eq!(drawing.circles[7].radius, 100);

    let alone = quake_drawing(epicenter, &[], v);
    assert!(alone.view.is_none());
    assert_eq!(alone.circles.len(), 2);
    assert_eq!(alone.circles[0].color, WHITE);
    assert_eq!(alone.circles[0].radius, 140);
}

/// 1×1 の赤い PNG。
const RED_PNG: [u8; 69] = [
    0x89, 0x50, 0x4E, 0x47, 0x0D, 0x0A, 0x1A, 0x0A, 0x00, 0x00, 0x00, 0x0D, 0x49, 0x48, 0x44, 0x52,
    0x00, 0x00, 0x00, 0x01, 0x00, 0x00, 0x00, 0x01, 0x08, 0x02, 0x00, 0x00, 0x00, 0x90, 0x77, 0x53,
    0xDE, 0x00, 0x00, 0x00, 0x0C, 0x49, 0x44, 0x41, 0x54, 0x78, 0xDA, 0x63, 0xF8, 0xCF, 0xC0, 0x00,
    0x00, 0x03, 0x01, 0x01, 0x00, 0xF7, 0x03, 0x41, 0x43, 0x00, 0x00, 0x00, 0x00, 0x49, 0x45, 0x4E,
    0x44, 0xAE, 0x42, 0x60, 0x82,
];

#[test]
fn maps_are_turned_into_webp() {
    let webp = encode_webp(&RED_PNG).unwrap();
    assert_eq!(&webp[0..4], b"RIFF");
    assert_eq!(&webp[8..16], b"WEBPVP8L");
    assert_eq!(&webp[20..25], &[0x2F, 0, 0, 0, 0]);
    let red = encode_pixels(Some(Pixels {
        width: 1,
        height: 1,
        rgba: vec![255, 0, 0, 255],
    }))
    .unwrap();
    assert_eq!(&red[0..4], b"RIFF");
    assert_eq!(&red[8..25], &webp[8..25]);
    assert_eq!(encode_webp(b"not a png").unwrap_err(), WebpError::Unreadable);
    assert_eq!(encode_pixels(None).unwrap_err(), WebpError::Unreadable);
    // WebP の上限（16383）を超える画像と、大きさのない画像は符号化できない。
    for (width, height) in [(20_000u32, 1u32), (1, 16_384), (0, 1), (1, 0)] {
        let rgba = vec![0; (width * height * 4) as usize];
        let refused = encode_pixels(Some(Pixels { width, height, rgba }));
        assert_eq!(refused.unwrap_err(), WebpError::Unencodable);
    }
}

#[test]
fn a_webp_file_tells_the_size_of_the_image_and_whether_it_is_opaque() {
    let header = |width: u32, height: u32, alpha: u8| -> Vec<u8> {
        let mut rgba = vec![255; (width * height * 4) as usize];
        let last = rgba.len() - 1;
        rgba[last] = alpha;
        let webp = encode_pixels(Some(Pixels { width, height, rgba })).unwrap();
        webp[20..25].to_vec()
    };
    // 幅 - 1 = 299、高さ - 1 = 1029 を下位ビットから 14 ビットずつ、続けて透過の有無。
    assert_eq!(header(300, 1030, 255), [0x2F, 0x2B, 0x41, 0x01, 0x01]);
    assert_eq!(header(300, 1030, 254), [0x2F, 0x2B, 0x41, 0x01, 0x11]);
    assert_eq!(header(16_383, 1, 255), [0x2F, 0xFE, 0x3F, 0x00, 0x00]);
    assert_eq!(header(1, 16_383, 0), [0x2F, 0x00, 0x80, 0xFF, 0x1F]);
}

#[test]
fn nothing_that_can_be_seen_is_lost_in_webp() {
    let red = read_webp(&encode_webp(&RED_PNG).unwrap()).unwrap();
    assert_eq!((red.width, red.height, red.rgba), (1, 1, vec![255, 0, 0, 255]));

    // 色も不透明度も画素ごとに違う画像。透明な画素の色だけは残らない。
    for opaque in [true, false] {
        let (width, height) = (61u32, 47u32);
        let mut rgba: Vec<u8> = Vec::new();
        for i in 0..width * height {
            let alpha = if opaque { 255 } else { i % 256 };
            for value in [i * 7, i * i, i / 3 * 91, alpha] {
                rgba.push((value % 256) as u8);
            }
        }
        let image = Pixels { width, height, rgba: rgba.clone() };
        let read = read_webp(&encode_pixels(Some(image)).unwrap()).unwrap();
        assert_eq!((read.width, read.height), (width, height));
        assert_eq!(read.rgba.len(), rgba.len());
        for (before, after) in rgba.chunks(4).zip(read.rgba.chunks(4)) {
            assert_eq!(before[3], after[3]);
            if before[3] != 0 {
                assert_eq!(before, after);
            }
        }
    }
}

#[test]
fn only_lossless_webp_is_read() {
    let webp = encode_webp(&RED_PNG).unwrap();
    assert!(read_webp(&webp).is_some());
    assert!(read_webp(&webp[..24]).is_none());
    assert!(read_webp(&webp[..15]).is_none());
    assert!(read_webp(&[]).is_none());
    assert!(read_webp(&RED_PNG).is_none());
    for i in [0, 3, 8, 11, 15, 20] {
        let mut other = webp.clone();
        other[i] ^= 0xFF;
        assert!(read_webp(&other).is_none());
    }
}

#[test]
fn what_the_encoder_gives_is_what_comes_of_an_image() {
    assert_eq!(encoded(Some(vec![1, 2, 3])), Ok(vec![1, 2, 3]));
    assert_eq!(encoded(None), Err(WebpError::Unencodable));
}
