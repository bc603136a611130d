use std::io::Cursor;
use thumbor::engine::{Engine, EngineError, PixelBuffer};
use thumbor::model::{Filter, Operation, SampleFilter};
use thumbor::request::{source_url_bytes, RequestError};
use thumbor::codec::SpecDecodeError;
use thumbor::cache::FetchError;

fn overlay() -> PixelBuffer {
    PixelBuffer::filled(10, 10, 255, 0, 0, 255)
}

fn px(b: &PixelBuffer, col: u32, row: u32) -> [u8; 4] {
    [b.channel(col, row, 0), b.channel(col, row, 1), b.channel(col, row, 2), b.channel(col, row, 3)]
}

#[test]
fn scenario_pipeline_on_known_input() {
    let engine = Engine::new(overlay());
    let mut buf = PixelBuffer::filled(1260, 750, 100, 100, 100, 255);
    let ops = vec![
        Operation::new_resize(500, 800, SampleFilter::CatmullRom),
        Operation::new_watermark(20, 20),
        Operation::new_filter(Filter::Marine),
    ];
    assert_eq!(engine.apply(&mut buf, &ops), Ok(()));
    assert_eq!(buf.width, 500);
    assert_eq!(buf.height, 800);
    assert_eq!(buf.data.len(), 500 * 800 * 4);
    // The opaque red overlay covers (20,20)..(30,30), then Marine tints it.
    assert_eq!(px(&buf, 20, 20), [204, 2, 23, 255]);
    assert_eq!(px(&buf, 29, 29), [204, 2, 23, 255]);
    assert_ne!(px(&buf, 19, 19), [204, 2, 23, 255]);
    assert_ne!(px(&buf, 30, 30), [204, 2, 23, 255]);
}

#[test]
fn order_of_resize_and_watermark_matters() {
    let engine = Engine::new(overlay());
    let mut a = PixelBuffer::filled(100, 100, 0, 0, 255, 255);
    let mut b = PixelBuffer::filled(100, 100, 0, 0, 255, 255);
    let resize = Operation::new_resize(50, 50, SampleFilter::Nearest);
    let mark = Operation::new_watermark(0, 0);
    engine.apply(&mut a, &vec![resize, mark]).unwrap();
    engine.apply(&mut b, &vec![mark, resize]).unwrap();
    assert_eq!((a.width, a.height), (50, 50));
    assert_eq!((b.width, b.height), (50, 50));
    assert_ne!(a.data, b.data);
    assert_eq!(px(&a, 9, 9), [255, 0, 0, 255]);
    assert_ne!(px(&b, 9, 9), [255, 0, 0, 255]);
}

#[test]
fn zero_sized_resize_is_rejected_before_mutation() {
    let engine = Engine::new(overlay());
    let mut buf = PixelBuffer::filled(4, 4, 1, 2, 3, 4);
    let before = buf.data.clone();
    let ops = vec![Operation::new_filter(Filter::Oceanic), Operation::new_resize(0, 10, SampleFilter::Nearest)];
    assert_eq!(engine.apply(&mut buf, &ops), Err(EngineError::InvalidOperation));
    assert_eq!(buf.data, before);
    assert_eq!((buf.width, buf.height), (4, 4));
}

#[test]
fn resize_of_empty_canvas_is_rejected() {
    let engine = Engine::new(overlay());
    let mut buf = PixelBuffer::filled(0, 5, 1, 2, 3, 4);
    let ops = vec![Operation::new_resize(3, 3, SampleFilter::Triangle)];
    assert_eq!(engine.apply(&mut buf, &ops), Err(EngineError::InvalidOperation));
}

#[test]
fn watermark_is_clipped_at_edge() {
    let engine = Engine::new(overlay());
    let mut buf = PixelBuffer::filled(100, 100, 0, 255, 0, 128);
    engine.apply(&mut buf, &vec![Operation::new_watermark(95, 95)]).unwrap();
    assert_eq!(buf.data.len(), 100 * 100 * 4);
    assert_eq!(px(&buf, 99, 99), [255, 0, 0, 128]);
    assert_eq!(px(&buf, 95, 95), [255, 0, 0, 128]);
    assert_eq!(px(&buf, 94, 94), [0, 255, 0, 128]);
    let mut far = PixelBuffer::filled(8, 8, 0, 255, 0, 255);
    engine.apply(&mut far, &vec![Operation::new_watermark(1000, 1000)]).unwrap();
    assert_eq!(far.data, PixelBuffer::filled(8, 8, 0, 255, 0, 255).data);
}

#[test]
fn translucent_overlay_blends() {
    let engine = Engine::new(PixelBuffer::filled(2, 2, 255, 255, 255, 51));
    let mut buf = PixelBuffer::filled(4, 4, 0, 100, 255, 255);
    engine.apply(&mut buf, &vec![Operation::new_watermark(1, 1)]).unwrap();
    // (255*51 + d*204) / 255
    assert_eq!(px(&buf, 1, 1), [51, 131, 255, 255]);
    assert_eq!(px(&buf, 0, 0), [0, 100, 255, 255]);
}

#[test]
fn filters_keep_size_and_tint() {
    let engine = Engine::new(overlay());
    for (kind, expect) in [
        (Filter::Oceanic, [80, 97, 114, 7]),
        (Filter::Islands, [80, 84, 99, 7]),
        (Filter::Marine, [80, 82, 103, 7]),
    ] {
        let mut buf = PixelBuffer::filled(3, 2, 100, 100, 100, 7);
        engine.apply(&mut buf, &vec![Operation::new_filter(kind)]).unwrap();
        assert_eq!((buf.width, buf.height), (3, 2));
        assert_eq!(px(&buf, 2, 1), expect);
    }
}

#[test]
fn empty_operation_list_is_identity() {
    let engine = Engine::new(overlay());
    let mut buf = PixelBuffer::filled(3, 3, 9, 8, 7, 6);
    engine.apply(&mut buf, &vec![]).unwrap();
    assert_eq!(buf.data, PixelBuffer::filled(3, 3, 9, 8, 7, 6).data);
}

#[test]
fn undecodable_bytes_fail_with_decode() {
    let engine = Engine::new(overlay());
    assert_eq!(engine.run(b"not an image", &vec![]), Err(EngineError::Decode));
    assert_eq!(engine.run(&[], &vec![]), Err(EngineError::Decode));
}

#[test]
fn run_produces_jpeg_of_new_size() {
    let src = image::RgbaImage::from_pixel(64, 48, image::Rgba([10, 200, 30, 255]));
    let mut png = Cursor::new(Vec::new());
    image::DynamicImage::ImageRgba8(src)
        .write_to(&mut png, image::ImageOutputFormat::Png)
        .unwrap();
    let engine = Engine::new(overlay());
    let ops = vec![Operation::new_resize(16, 12, SampleFilter::Lanczos3), Operation::new_watermark(2, 2)];
    let out = engine.run(png.get_ref(), &ops).unwrap();
    assert_eq!(&out[..2], &[0xFF, 0xD8]);
    let back = image::load_from_memory(&out).unwrap();
    assert_eq!((back.width(), back.height()), (16, 12));
    let bad = vec![Operation::new_resize(16, 0, SampleFilter::Lanczos3)];
    assert_eq!(engine.run(png.get_ref(), &bad), Err(EngineError::InvalidOperation));
}

#[test]
fn error_statuses() {
    assert_eq!(RequestError::Spec(SpecDecodeError::Truncated).status_code(), 400);
    assert_eq!(RequestError::InvalidUrl.status_code(), 400);
    assert_eq!(RequestError::Fetch(FetchError::Unreachable).status_code(), 400);
    assert_eq!(RequestError::Fetch(FetchError::BadStatus(503)).status_code(), 400);
    assert_eq!(RequestError::Engine(EngineError::Decode).status_code(), 500);
    assert_eq!(RequestError::Engine(EngineError::InvalidOperation).status_code(), 500);
}

#[test]
fn source_url_segment_decodes() {
    assert_eq!(
        source_url_bytes("https%3A%2F%2Fa.example%2Fp.jpg%3Fw%3d1").unwrap(),
        b"https://a.example/p.jpg?w=1".to_vec()
    );
    assert_eq!(source_url_bytes(""), Err(RequestError::InvalidUrl));
    assert_eq!(source_url_bytes("abc%2"), Err(RequestError::InvalidUrl));
    assert_eq!(source_url_bytes("é"), Err(RequestError::InvalidUrl));
}
