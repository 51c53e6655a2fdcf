use optifunkin::compose::{ImageBuf, Pixel};
use optifunkin::extract::{extract_sprite, BoundsError};
use optifunkin::naming::output_filename;
use optifunkin::parse::{RawAttr, RawElement};
use optifunkin::pipeline::{process_atlas, process_descriptor_text, AtlasError};
use optifunkin::records::{SpriteRecord, Trim};

fn px(x: u32, y: u32) -> Pixel {
    Pixel { r: (x % 251) as u8, g: (y % 241) as u8, b: ((x + y) % 17) as u8, a: 255 }
}

fn test_image(w: u32, h: u32) -> ImageBuf {
    let mut pixels = Vec::new();
    for y in 0..h {
        for x in 0..w {
            pixels.push(px(x, y));
        }
    }
    ImageBuf { width: w, height: h, pixels }
}

fn pixel_at(img: &ImageBuf, x: u32, y: u32) -> Pixel {
    img.pixels[(y * img.width + x) as usize]
}

fn rec(name: &str, x: i32, y: i32, w: i32, h: i32, trim: Option<Trim>) -> SpriteRecord {
    SpriteRecord { name: name.to_string(), x, y, width: w, height: h, trim }
}

fn attr(name: &str, value: &str) -> RawAttr {
    RawAttr { name: name.to_string(), value: value.to_string() }
}

fn sprite_elem(name: &str, x: &str, y: &str, w: &str, h: &str) -> RawElement {
    RawElement {
        is_element: true,
        tag: "SubTexture".to_string(),
        attrs: vec![attr("name", name), attr("x", x), attr("y", y), attr("width", w), attr(
            "height", h,
        )],
    }
}

#[test]
fn untrimmed_extraction_is_the_crop() {
    let src = test_image(64, 64);
    let out = extract_sprite(&src, &rec("s", 8, 16, 20, 10, None)).unwrap();
    assert_eq!((out.width, out.height), (20, 10));
    for y in 0..10 {
        for x in 0..20 {
            assert_eq!(pixel_at(&out, x, y), pixel_at(&src, 8 + x, 16 + y));
        }
    }
}

#[test]
fn zero_offset_full_size_trim_is_pixel_identical_to_the_crop() {
    let src = test_image(64, 64);
    let plain = extract_sprite(&src, &rec("s", 8, 16, 20, 10, None)).unwrap();
    let trim = Trim { frame_x: 0, frame_y: 0, frame_w: 20, frame_h: 10 };
    let trimmed = extract_sprite(&src, &rec("s", 8, 16, 20, 10, Some(trim))).unwrap();
    assert_eq!((trimmed.width, trimmed.height), (plain.width, plain.height));
    assert_eq!(trimmed.pixels, plain.pixels);
}

#[test]
fn trimmed_extraction_restores_the_canvas() {
    // A 16x16 crop restored at (4, 4) on a 24x24 transparent canvas.
    let src = test_image(64, 64);
    let trim = Trim { frame_x: 4, frame_y: 4, frame_w: 24, frame_h: 24 };
    let out = extract_sprite(&src, &rec("s", 10, 20, 16, 16, Some(trim))).unwrap();
    assert_eq!((out.width, out.height), (24, 24));
    for y in 0..24 {
        for x in 0..24 {
            let p = pixel_at(&out, x, y);
            if (4..20).contains(&x) && (4..20).contains(&y) {
                assert_eq!(p, pixel_at(&src, 10 + x - 4, 20 + y - 4));
                assert_eq!(p.a, 255);
            } else {
                assert_eq!(p, Pixel { r: 0, g: 0, b: 0, a: 0 });
            }
        }
    }
}

#[test]
fn frame_outside_the_image_is_a_bounds_error() {
    let src = test_image(32, 32);
    assert!(matches!(extract_sprite(&src, &rec("s", 20, 0, 16, 8, None)), Err(BoundsError::Frame)));
    assert!(matches!(extract_sprite(&src, &rec("s", -1, 0, 4, 4, None)), Err(BoundsError::Frame)));
    assert!(matches!(extract_sprite(&src, &rec("s", 0, 0, 0, 4, None)), Err(BoundsError::Frame)));
}

#[test]
fn trim_that_exceeds_the_canvas_is_a_bounds_error() {
    let src = test_image(32, 32);
    let trim = Trim { frame_x: 10, frame_y: 0, frame_w: 12, frame_h: 8 };
    assert!(matches!(extract_sprite(&src, &rec("s", 0, 0, 8, 8, Some(trim))), Err(BoundsError::Trim)));
}

#[test]
fn single_sprite_atlas_yields_one_exact_output() {
    let src = test_image(64, 64);
    let elems = vec![sprite_elem("idle0", "0", "0", "32", "32")];
    let plan = process_atlas(&elems, &src).unwrap();
    assert_eq!(plan.outputs.len(), 1);
    assert_eq!(plan.failures.len(), 0);
    assert_eq!(plan.outputs[0].filename, "idle0.png");
    let out = &plan.outputs[0].image;
    assert_eq!((out.width, out.height), (32, 32));
    for y in 0..32 {
        for x in 0..32 {
            assert_eq!(pixel_at(out, x, y), pixel_at(&src, x, y));
        }
    }
    assert!(plan.packing.is_ok());
}

#[test]
fn aliased_frames_yield_exactly_one_output() {
    let src = test_image(32, 32);
    let elems = vec![
        sprite_elem("a", "0", "0", "16", "16"),
        sprite_elem("b", "0", "0", "16", "16"),
    ];
    let plan = process_atlas(&elems, &src).unwrap();
    assert_eq!(plan.outputs.len(), 1);
    // Last write wins: the surviving record is `b`.
    assert_eq!(plan.outputs[0].filename, "b.png");
}

#[test]
fn broken_atlas_does_not_stop_a_well_formed_one() {
    let src = test_image(32, 32);
    let mut broken = sprite_elem("x", "0", "0", "8", "8");
    broken.attrs.retain(|a| a.name != "width");
    assert!(process_atlas(&vec![broken], &src).is_err());
    let plan = process_atlas(&vec![sprite_elem("ok", "0", "0", "8", "8")], &src).unwrap();
    assert_eq!(plan.outputs.len(), 1);
    assert_eq!(plan.outputs[0].filename, "ok.png");
}

#[test]
fn descriptor_text_runs_the_whole_pipeline() {
    let src = test_image(64, 64);
    let text = "<TextureAtlas imagePath=\"hero.png\">\
        <SubTexture name=\"idle0\" x=\"0\" y=\"0\" width=\"32\" height=\"32\"/>\
        <SubTexture name=\"hit0\" x=\"32\" y=\"0\" width=\"16\" height=\"16\" \
         frameX=\"2\" frameY=\"2\" frameWidth=\"20\" frameHeight=\"20\"/>\
        </TextureAtlas>";
    let plan = process_descriptor_text(text, &src).unwrap();
    assert_eq!(plan.outputs.len(), 2);
    assert_eq!(plan.outputs[0].filename, "idle0.png");
    assert_eq!(plan.outputs[1].filename, "hit0.png");
    assert_eq!((plan.outputs[1].image.width, plan.outputs[1].image.height), (20, 20));
    assert_eq!(plan.records.len(), 2);
    assert!(plan.packing.is_ok());
}

#[test]
fn malformed_xml_is_an_atlas_error() {
    let src = test_image(8, 8);
    match process_descriptor_text("<TextureAtlas><oops", &src) {
        Err(AtlasError::Xml) => {}
        _ => panic!("expected an XML error"),
    }
}

#[test]
fn malformed_sprite_element_is_a_parse_error() {
    let src = test_image(8, 8);
    let text = "<TextureAtlas><SubTexture name=\"s\" x=\"0\" y=\"0\" height=\"4\"/></TextureAtlas>";
    match process_descriptor_text(text, &src) {
        Err(AtlasError::Parse(_)) => {}
        _ => panic!("expected a parse error"),
    }
}

#[test]
fn output_filenames_are_sanitized() {
    assert_eq!(output_filename(&"a/b".to_string()), "ab.png");
    assert_eq!(output_filename(&"hero:0".to_string()), "hero0.png");
    assert_eq!(output_filename(&"idle0".to_string()), "idle0.png");
}
