use color_cycle::color::Rgb;
use color_cycle::error::Error;
use color_cycle::ilbm::{self, ErrorKind};
use color_cycle::image::living_world::{span_at_time, TimelineSpan, DAY_MS};
use color_cycle::image::{CycleImage, IndexedImage, LivingWorld, RgbImage, TimedEvent};
use color_cycle::palette::{Cycle, Palette};
use color_cycle::read::{palette_from_list, resolve_timeline, reverse_from_code};

fn gray_palette() -> Palette {
    let colors: Vec<Rgb> = (0..256).map(|i| Rgb([i as u8, i as u8, i as u8])).collect();
    Palette::from_colors(&colors)
}

fn numbered(width: u32, height: u32) -> IndexedImage {
    let data: Vec<u8> = (0..width * height).map(|i| i as u8).collect();
    IndexedImage::from_buffer(width, height, data, gray_palette()).unwrap()
}

#[test]
fn indexed_image_buffers_are_checked_and_truncated() {
    assert!(IndexedImage::from_buffer(3, 2, vec![0; 5], Palette::new()).is_none());
    let img = IndexedImage::from_buffer(3, 2, (0..9).collect(), Palette::new()).unwrap();
    assert_eq!(img.data(), &[0, 1, 2, 3, 4, 5]);
    assert_eq!(img.size(), (3, 2));
    assert_eq!(img.get_index(2, 1), 5);
    let filled = IndexedImage::from_index(2, 2, 7, Palette::new());
    assert_eq!(filled.data(), &[7, 7, 7, 7]);
    assert_eq!(IndexedImage::new(2, 1, Palette::new()).data(), &[0, 0]);
}

#[test]
fn indexed_image_edits() {
    let mut img = numbered(4, 3);
    img.set_index(1, 2, 99);
    assert_eq!(img.get_index(1, 2), 99);
    let rect = img.get_rect(1, 1, 10, 10);
    assert_eq!(rect.size(), (3, 2));
    assert_eq!(rect.data(), &[5, 6, 7, 99, 10, 11]);
    assert_eq!(img.get_rect(4, 0, 1, 1).size(), (0, 0));
    let mut other = IndexedImage::new(1, 1, Palette::new());
    other.get_rect_from(0, 1, 2, 1, &img);
    assert_eq!(other.data(), &[4, 5]);
    img.resize(5, 2, 42);
    assert_eq!(img.data(), &[0, 1, 2, 3, 42, 4, 5, 6, 7, 42]);
    img.fill(3);
    assert_eq!(img.data(), &[3; 10]);
    let mut wide = numbered(10, 1);
    wide.column_swap();
    assert_eq!(wide.data(), &[7, 6, 5, 4, 3, 2, 1, 0, 9, 8]);
}

#[test]
fn rgb_images() {
    let mut img = RgbImage::from_color(2, 2, Rgb([1, 2, 3]));
    assert_eq!(img.data(), &[1, 2, 3, 1, 2, 3, 1, 2, 3, 1, 2, 3]);
    img.set_pixel(1, 1, Rgb([9, 8, 7]));
    assert_eq!(img.get_pixel(1, 1), Rgb([9, 8, 7]));
    assert_eq!(img.get_pixel(0, 1), Rgb([1, 2, 3]));
    let rect = img.get_rect(1, 0, 5, 5);
    assert_eq!(rect.size(), (1, 2));
    assert_eq!(rect.data(), &[1, 2, 3, 9, 8, 7]);
    img.resize(3, 1, Rgb([0, 0, 255]));
    assert_eq!(img.data(), &[1, 2, 3, 1, 2, 3, 0, 0, 255]);
    img.fill(Rgb([5, 5, 5]));
    assert_eq!(img.data(), &[5; 9]);
    assert!(RgbImage::from_buffer(2, 1, &[0; 5]).is_none());
    assert_eq!(RgbImage::from_buffer(1, 1, &[4, 5, 6, 7]).unwrap().data(), &[4, 5, 6]);
    let black = RgbImage::new(1, 2);
    assert_eq!(black.data(), &[0; 6]);
    let mut target = RgbImage::new(1, 1);
    target.get_rect_from(0, 0, 1, 1, &black);
    assert_eq!(target.size(), (1, 1));
}

#[test]
fn indexed_images_paint_rgb_images() {
    let img = numbered(2, 2);
    let rgb = RgbImage::from_indexed_image(&img);
    assert_eq!(rgb.data(), &[0, 0, 0, 1, 1, 1, 2, 2, 2, 3, 3, 3]);
    let mut target = RgbImage::new(2, 2);
    let red = Palette::from_colors(&vec![Rgb([255, 0, 0]); 256]);
    img.apply_with_palette(&mut target, &red);
    assert_eq!(target.get_pixel(1, 1), Rgb([255, 0, 0]));
    img.apply(&mut target);
    assert_eq!(target.get_pixel(1, 1), Rgb([3, 3, 3]));
    let mut small = RgbImage::new(1, 1);
    small.draw_indexed_image(&img);
    assert_eq!(small.data(), &[0, 0, 0]);
}

#[test]
fn cycle_image_renders_frames() {
    let img = numbered(4, 1);
    let image = CycleImage::new(Some("demo.lbm".to_string()), img, vec![Cycle::new(0, 3, 280, false)]);
    assert_eq!(image.filename(), Some("demo.lbm"));
    assert_eq!(image.width(), 4);
    assert_eq!(image.height(), 1);
    assert_eq!(image.get_index(2, 0), 2);
    let mut frame = Palette::new();
    let mut target = RgbImage::new(4, 1);
    image.render_frame(1000, false, &mut frame, &mut target);
    assert_eq!(target.data(), &[3, 3, 3, 0, 0, 0, 1, 1, 1, 2, 2, 2]);
    image.render_frame(500, true, &mut frame, &mut target);
    // half a step: entry 0 mixes entry 0 with entry 3, which comes next
    assert_eq!(frame.get(0), Rgb([2, 2, 2]));
    let rect = image.get_rect(1, 0, 2, 1);
    assert_eq!(rect.indexed_image().data(), &[1, 2]);
    assert_eq!(rect.cycles().len(), 1);
    assert_eq!(rect.filename(), None);
    let mut copy = image.clone();
    copy.resize(2, 1, 0);
    assert_eq!(copy.size(), (2, 1));
    copy.get_rect_from(2, 0, 2, 1, &image);
    assert_eq!(copy.indexed_image().data(), &[2, 3]);
}

#[test]
fn living_worlds_and_timelines() {
    let base = CycleImage::new(Some("world".to_string()), numbered(1, 1), vec![]);
    let world = LivingWorld::from_cycle_image(base.clone());
    assert_eq!(world.name(), Some("world"));
    assert!(world.palettes().is_empty());
    assert!(world.timeline().is_empty());
    let only = LivingWorld::only_base(base.clone());
    assert_eq!(only.name(), None);
    assert_eq!(only.into_base().width(), 1);
    let full = LivingWorld::new(None, base.clone(), vec![base.clone()], vec![TimedEvent::new(3600, 0)]);
    assert_eq!(full.timeline()[0].time_of_day(), 3600);
    assert_eq!(full.timeline()[0].palette_index(), 0);
    assert_eq!(full.base().height(), 1);
    let names = vec!["night".to_string(), "day".to_string(), "day".to_string()];
    let events = resolve_timeline(&names, &[(0, "day".to_string()), (100, "night".to_string())]).unwrap();
    assert_eq!(events, vec![TimedEvent::new(0, 1), TimedEvent::new(100, 0)]);
    assert!(resolve_timeline(&names, &[(5, "dusk".to_string())]).is_none());
}

#[test]
fn world_file_helpers() {
    assert_eq!(reverse_from_code(0), Some(false));
    assert_eq!(reverse_from_code(2), Some(true));
    assert_eq!(reverse_from_code(1), None);
    assert!(palette_from_list(&vec![Rgb([1, 1, 1]); 255]).is_none());
    let p = palette_from_list(&vec![Rgb([1, 1, 1]); 256]).unwrap();
    assert_eq!(p.get(255), Rgb([1, 1, 1]));
}

#[test]
fn errors_chain_their_causes() {
    let inner = ilbm::Error::new(ErrorKind::BrokenFile, "bad".to_string());
    let outer = Error::from_ilbm_error(inner);
    assert_eq!(outer.message(), "ILBM error");
    assert_eq!(outer.source().unwrap().message(), "bad");
    let plain = Error::new("oops".to_string());
    assert!(plain.source().is_none());
    let chained = ilbm::Error::with_cause(ErrorKind::IO, "read".to_string(), ilbm::Error::new(ErrorKind::IO, "eof".to_string()));
    assert_eq!(chained.kind(), ErrorKind::IO);
    assert_eq!(chained.cause.unwrap().message(), "eof");
}

#[test]
fn big_endian_readers() {
    let data = [0x12, 0x34, 0xFF, 0xFE, 0x80];
    assert_eq!(ilbm::read_u8(&data, 4).unwrap(), 0x80);
    assert_eq!(ilbm::read_i8(&data, 4).unwrap(), -128);
    assert_eq!(ilbm::read_u16be(&data, 0).unwrap(), 0x1234);
    assert_eq!(ilbm::read_i16be(&data, 2).unwrap(), -2);
    assert_eq!(ilbm::read_u32be(&data, 0).unwrap(), 0x1234_FFFE);
    assert_eq!(ilbm::read_i32be(&data, 1).unwrap(), 0x34FF_FE80);
    assert_eq!(ilbm::read_u32be(&data, 2).unwrap_err().kind(), ErrorKind::IO);
    assert_eq!(ilbm::read_u8(&data, 5).unwrap_err().kind(), ErrorKind::IO);
}

#[test]
fn palettes_change_in_place() {
    let mut img = numbered(2, 1);
    img.palette_mut().set(1, Rgb([9, 9, 9]));
    assert_eq!(img.palette().get(1), Rgb([9, 9, 9]));
    assert_eq!(img.to_rgb_image().data(), &[0, 0, 0, 9, 9, 9]);
    let mut image = CycleImage::new(None, numbered(2, 1), vec![]);
    image.palette_mut().set(0, Rgb([4, 5, 6]));
    assert_eq!(image.palette().get(0), Rgb([4, 5, 6]));
    let mut other = numbered(1, 1);
    other.set_palette(Palette::new());
    assert_eq!(other.palette().get(0), Rgb([0, 0, 0]));
}

#[test]
fn timeline_spans() {
    let events = vec![TimedEvent::new(3600, 1), TimedEvent::new(7200, 2), TimedEvent::new(36000, 0)];
    // before the first event: from midnight with the day's last palette
    assert_eq!(span_at_time(&events, 1_800_000), Some(TimelineSpan { from: 0, to: 1, elapsed: 1_800_000, length: 3_600_000 }));
    // between the first and second event
    assert_eq!(span_at_time(&events, 3_600_000), Some(TimelineSpan { from: 1, to: 2, elapsed: 0, length: 3_600_000 }));
    // after the last event: towards midnight and the first palette
    assert_eq!(
        span_at_time(&events, 50_000_000),
        Some(TimelineSpan { from: 0, to: 1, elapsed: 14_000_000, length: DAY_MS - 36_000_000 })
    );
    assert_eq!(span_at_time(&[], 5), None);
    let world = LivingWorld::new(None, CycleImage::new(None, numbered(1, 1), vec![]), vec![], events);
    assert_eq!(world.timeline_span(4_000_000).unwrap().to, 2);
}

#[test]
fn rect_data_is_clipped() {
    let img = numbered(3, 3);
    assert_eq!(img.get_rect_data(1, 1, 5, 1), vec![4, 5]);
    assert!(img.get_rect_data(3, 0, 1, 1).is_empty());
    let rgb = RgbImage::from_indexed_image(&img);
    assert_eq!(rgb.get_rect_data(2, 2, 1, 1), vec![8, 8, 8]);
}
