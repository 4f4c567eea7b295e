use aftershock::color::Color;
use aftershock::partitioned_buffer::{BoundingParallelThreshold, PartitionScheme};
use aftershock::partitioned_rasterizer::PartitionedRasterizer;
use aftershock::rasterizer::{DrawMode, PSetOp, Rasterizer};

fn rgba(c: Color) -> (u8, u8, u8, u8) {
    (c.r, c.g, c.b, c.a)
}

fn checker(w: usize, h: usize) -> Rasterizer {
    let mut img = Rasterizer::new(w, h);
    for y in 0..h as i64 {
        for x in 0..w as i64 {
            if (x + y) % 3 != 0 {
                img.pset(x, y, Color::new((x * 7) as u8, (y * 5) as u8, 90, 255));
            }
        }
    }
    img
}

#[test]
fn partitioned_rasterizer_new_splits_grid() {
    let pr = PartitionedRasterizer::new(10, 6, 4);
    assert_eq!(pr.scheme, PartitionScheme::Split2x2);
    assert_eq!(pr.threshold, BoundingParallelThreshold::Low);
    assert_eq!(pr.partitions.len(), 4);
    let places: Vec<(usize, usize, usize, usize)> =
        pr.partitions.iter().map(|p| (p.offset_x, p.offset_y, p.width, p.height)).collect();
    assert_eq!(places, vec![(0, 0, 5, 3), (5, 0, 5, 3), (0, 3, 5, 3), (5, 3, 5, 3)]);
    assert!(pr.partitions.iter().all(|p| p.color.iter().all(|&v| v == 0)));
    assert!(pr.partitions.iter().all(|p| p.pset_op == PSetOp::Opaque && p.drawn_pixels_since_clear == 0));
    assert_eq!(pr.rasterizer.color.len(), 10 * 6 * 4);

    let tall = PartitionedRasterizer::new(4, 9, 2);
    assert_eq!(tall.scheme, PartitionScheme::Split2x1);
    let places: Vec<(usize, usize, usize, usize)> =
        tall.partitions.iter().map(|p| (p.offset_x, p.offset_y, p.width, p.height)).collect();
    assert_eq!(places, vec![(0, 0, 4, 4), (0, 4, 4, 5)]);

    let many = PartitionedRasterizer::new(16, 16, 32);
    assert_eq!(many.scheme, PartitionScheme::Split8x8);
    assert_eq!(many.partitions.len(), 64);
}

#[test]
fn partitioned_rasterizer_with_cpu_count() {
    let pr = PartitionedRasterizer::new(24, 24, 0);
    assert!(!pr.partitions.is_empty());
    for p in &pr.partitions {
        assert!(p.offset_x + p.width <= 24);
        assert!(p.offset_y + p.height <= 24);
    }
}

#[test]
fn partitioned_rasterizer_prectangle_matches_single() {
    // 200 by 200 is 40000 pixels, over the default threshold of 32768: drawn part by part
    let mut pr = PartitionedRasterizer::new(220, 210, 4);
    let mut single = Rasterizer::new(220, 210);
    let c = Color::new(200, 10, 30, 255);
    pr.prectangle(true, 7, 3, 200, 200, c);
    single.prectangle(true, 7, 3, 200, 200, c);
    assert_eq!(pr.rasterizer.color, single.color);
    // the whole rasterizer counted nothing; the partitions counted what they drew
    assert_eq!(pr.rasterizer.drawn_pixels_since_clear, 0);
    assert_eq!(pr.get_pixels_since_clear(), single.drawn_pixels_since_clear);
}

#[test]
fn partitioned_rasterizer_small_rectangle_drawn_whole() {
    let mut pr = PartitionedRasterizer::new(20, 20, 4);
    let mut single = Rasterizer::new(20, 20);
    let c = Color::new(1, 2, 3, 255);
    pr.prectangle(true, 2, 2, 10, 10, c);
    single.prectangle(true, 2, 2, 10, 10, c);
    assert_eq!(pr.rasterizer.color, single.color);
    assert_eq!(pr.rasterizer.drawn_pixels_since_clear, single.drawn_pixels_since_clear);
    assert!(pr.partitions.iter().all(|p| p.color.iter().all(|&v| v == 0)));
    // an outline is never split, however large
    pr.prectangle(false, 0, 0, 300, 300, c);
    single.prectangle(false, 0, 0, 300, 300, c);
    assert_eq!(pr.rasterizer.color, single.color);
}

#[test]
fn partitioned_rasterizer_pcircle_parts_matches_single() {
    let mut pr = PartitionedRasterizer::new(120, 100, 4);
    let mut single = Rasterizer::new(120, 100);
    let c = Color::new(5, 250, 5, 255);
    pr.pcircle_parts(true, 61, 47, 30, c);
    single.pcircle(true, 61, 47, 30, c);
    assert_eq!(pr.rasterizer.color, single.color);
    pr.pcircle_parts(false, 20, 80, 15, Color::white());
    single.pcircle(false, 20, 80, 15, Color::white());
    assert_eq!(pr.rasterizer.color, single.color);
}

#[test]
fn partitioned_rasterizer_pimg_matches_single() {
    let img = checker(200, 180);
    let mut pr = PartitionedRasterizer::new(230, 200, 4);
    let mut single = Rasterizer::new(230, 200);
    pr.pimg(&img, 11, 9);
    single.pimg(&img, 11, 9);
    assert_eq!(pr.rasterizer.color, single.color);
    assert_eq!(pr.rasterizer.drawn_pixels_since_clear, 0);

    // a small image is drawn into the whole rasterizer
    let small = checker(5, 4);
    let mut pr = PartitionedRasterizer::new(20, 20, 4);
    let mut single = Rasterizer::new(20, 20);
    pr.pimg(&small, 3, 3);
    single.pimg(&small, 3, 3);
    assert_eq!(pr.rasterizer.color, single.color);
    assert_eq!(pr.rasterizer.drawn_pixels_since_clear, single.drawn_pixels_since_clear);
}

#[test]
fn partitioned_rasterizer_pimgrect() {
    let img = checker(200, 180);
    let mut pr = PartitionedRasterizer::new(100, 100, 4);
    pr.pimgrect(&img, 0, 0, 0, 0, 50, 50);
    // each partition drew the section at its own place, then all were copied back
    let mut expect = Rasterizer::new(100, 100);
    for p in &pr.partitions {
        let mut q = Rasterizer::new(p.width, p.height);
        q.pimgrect(&img, -(p.offset_x as i64), -(p.offset_y as i64), 0, 0, 50, 50);
        assert_eq!(q.color, p.color);
        expect.blit(&q, p.offset_x as i64, p.offset_y as i64);
    }
    assert_eq!(pr.rasterizer.color, expect.color);

    // below the threshold the section is drawn into the whole rasterizer
    let small = checker(6, 6);
    let mut pr = PartitionedRasterizer::new(20, 20, 4);
    let mut single = Rasterizer::new(20, 20);
    pr.pimgrect(&small, 2, 2, 0, 0, 2, 2);
    single.pimgrect(&small, 2, 2, 0, 0, 2, 2);
    assert_eq!(pr.rasterizer.color, single.color);
}

#[test]
fn partitioned_rasterizer_settings_reach_every_part() {
    let mut pr = PartitionedRasterizer::new(8, 8, 4);
    pr.set_draw_mode(DrawMode::Alpha);
    pr.set_tint(Color::new(10, 20, 30, 40));
    pr.set_opacity(99);
    for r in std::iter::once(&pr.rasterizer).chain(pr.partitions.iter()) {
        assert_eq!(r.pset_op, PSetOp::Alpha);
        assert_eq!(r.draw_mode, DrawMode::Alpha);
        assert_eq!(rgba(r.tint), (10, 20, 30, 40));
        assert_eq!(r.opacity, 99);
    }
}

#[test]
fn partitioned_rasterizer_clear_and_count() {
    let mut pr = PartitionedRasterizer::new(8, 8, 4);
    pr.pset(1, 1, Color::white());
    pr.pset(9, 9, Color::white());
    assert_eq!(pr.get_pixels_since_clear(), 3);
    pr.partitions[2].pset(0, 0, Color::white());
    assert_eq!(pr.get_pixels_since_clear(), 5);
    pr.clear_color(Color::new(1, 2, 3, 4));
    assert_eq!(pr.get_pixels_since_clear(), 0);
    assert!(pr.rasterizer.color.chunks(4).all(|p| p == [1, 2, 3, 4]));
    assert!(pr.partitions.iter().all(|p| p.color.chunks(4).all(|q| q == [1, 2, 3, 4])));
    pr.pset(0, 0, Color::white());
    pr.clear();
    assert_eq!(pr.get_pixels_since_clear(), 0);
    assert!(pr.rasterizer.color.iter().all(|&v| v == 0));
    assert!(pr.partitions.iter().all(|p| p.color.iter().all(|&v| v == 0)));
}

#[test]
fn partitioned_rasterizer_pget_changes_nothing() {
    let mut pr = PartitionedRasterizer::new(4, 4, 1);
    pr.pset(2, 2, Color::new(9, 9, 9, 255));
    let before = pr.rasterizer.color.clone();
    pr.pget(2, 2);
    assert_eq!(pr.rasterizer.color, before);
    assert_eq!(pr.get_pixels_since_clear(), 2);
}

#[test]
fn partitioned_rasterizer_pline_draws_whole() {
    let mut pr = PartitionedRasterizer::new(10, 10, 4);
    let mut single = Rasterizer::new(10, 10);
    pr.pline(0, 0, 9, 6, Color::white());
    single.pline(0, 0, 9, 6, Color::white());
    assert_eq!(pr.rasterizer.color, single.color);
    assert!(pr.partitions.iter().all(|p| p.drawn_pixels_since_clear == 0));
}

#[test]
fn partitioned_rasterizer_debug_view() {
    let mut pr = PartitionedRasterizer::new(10, 10, 4);
    pr.draw_debug_view();
    let magenta = (255, 0, 255, 255);
    // the top and left edges of the partition at (5, 5)
    assert_eq!(rgba(pr.rasterizer.pget(5, 5)), magenta);
    assert_eq!(rgba(pr.rasterizer.pget(9, 5)), magenta);
    assert_eq!(rgba(pr.rasterizer.pget(5, 9)), magenta);
    assert_eq!(rgba(pr.rasterizer.pget(0, 0)), magenta);
    assert_eq!(rgba(pr.rasterizer.pget(3, 3)), (0, 0, 0, 0));
}

#[test]
fn partitioned_rasterizer_resize_and_blit() {
    let mut pr = PartitionedRasterizer::new(8, 8, 4);
    pr.pset(1, 1, Color::white());
    pr.resize(12, 6);
    assert_eq!(pr.rasterizer.width, 12);
    assert_eq!(pr.rasterizer.color, vec![0u8; 12 * 6 * 4]);
    let places: Vec<(usize, usize, usize, usize)> =
        pr.partitions.iter().map(|p| (p.offset_x, p.offset_y, p.width, p.height)).collect();
    assert_eq!(places, vec![(0, 0, 6, 3), (6, 0, 6, 3), (0, 3, 6, 3), (6, 3, 6, 3)]);
    let img = checker(3, 2);
    pr.blit(&img, 4, 1);
    assert_eq!(rgba(pr.rasterizer.pget(5, 1)), rgba(img.pget(1, 0)));
    assert_eq!(rgba(pr.rasterizer.pget(4, 1)), (0, 0, 0, 0));
    // does not fit: nothing happens
    let before = pr.rasterizer.color.clone();
    pr.blit(&img, 11, 5);
    assert_eq!(pr.rasterizer.color, before);
}

#[test]
fn rasterizer_into_partitioned_keeps_pixels() {
    let img = checker(9, 7);
    let pr = img.into_partitioned();
    assert_eq!(pr.rasterizer.color, img.color);
    assert_eq!(pr.rasterizer.width, 9);
    assert!(!pr.partitions.is_empty());
}

#[test]
fn partitioned_rasterizer_set_core_limit() {
    let mut pr = PartitionedRasterizer::new(30, 30, 1);
    assert_eq!(pr.scheme, PartitionScheme::Full);
    assert_eq!(pr.partitions.len(), 1);
    pr.set_core_limit(6);
    assert_eq!(pr.scheme, PartitionScheme::Split3x2);
    assert_eq!(pr.partitions.len(), 6);
    pr.set_core_limit(7);
    assert_eq!(pr.scheme, PartitionScheme::Split4x4);
}

#[test]
fn partitioned_rasterizer_rectangle_in_alpha_mode_matches_single() {
    // every partition draws as the whole does, so the copied-back rectangle is the same
    // in a blending mode too
    let mut pr = PartitionedRasterizer::new(210, 180, 6);
    let mut single = Rasterizer::new(210, 180);
    pr.set_draw_mode(DrawMode::Alpha);
    pr.set_opacity(128);
    single.set_draw_mode(DrawMode::Alpha);
    single.opacity = 128;
    let c = Color::new(90, 160, 220, 255);
    pr.prectangle(true, -5, 10, 190, 190, c);
    single.prectangle(true, -5, 10, 190, 190, c);
    assert_eq!(pr.rasterizer.drawn_pixels_since_clear, 0);
    assert_eq!(pr.rasterizer.color, single.color);
}

#[test]
fn partitioned_rasterizer_disc_in_alpha_mode_matches_single() {
    let mut pr = PartitionedRasterizer::new(90, 60, 6);
    let mut single = Rasterizer::new(90, 60);
    pr.set_draw_mode(DrawMode::Alpha);
    pr.set_opacity(200);
    single.set_draw_mode(DrawMode::Alpha);
    single.opacity = 200;
    let c = Color::new(250, 100, 0, 255);
    pr.pcircle_parts(true, 40, 35, 28, c);
    single.pcircle(true, 40, 35, 28, c);
    assert_eq!(pr.rasterizer.color, single.color);
}

#[test]
fn partitioned_rasterizer_grid_takes_remainder() {
    let pr = PartitionedRasterizer::new(5, 4, 2);
    assert_eq!(pr.scheme, PartitionScheme::Split1x2);
    let places: Vec<(usize, usize, usize, usize)> =
        pr.partitions.iter().map(|p| (p.offset_x, p.offset_y, p.width, p.height)).collect();
    assert_eq!(places, vec![(0, 0, 2, 4), (2, 0, 3, 4)]);
    let odd = PartitionedRasterizer::new(7, 5, 6);
    assert_eq!(odd.scheme, PartitionScheme::Split3x2);
    let places: Vec<(usize, usize, usize, usize)> =
        odd.partitions.iter().map(|p| (p.offset_x, p.offset_y, p.width, p.height)).collect();
    assert_eq!(places, vec![(0, 0, 2, 2), (2, 0, 2, 2), (4, 0, 3, 2), (0, 2, 2, 3), (2, 2, 2, 3), (4, 2, 3, 3)]);
}

#[test]
fn partitioned_rasterizer_prectangle_keeps_earlier_pixels() {
    let mut pr = PartitionedRasterizer::new(5, 4, 4);
    pr.threshold = BoundingParallelThreshold::Always;
    pr.pset(0, 0, Color::red());
    pr.pset(4, 3, Color::green());
    pr.prectangle(true, 1, 1, 3, 2, Color::blue());
    assert_eq!(rgba(pr.rasterizer.pget(0, 0)), rgba(Color::red()));
    assert_eq!(rgba(pr.rasterizer.pget(4, 3)), rgba(Color::green()));
    assert_eq!(rgba(pr.rasterizer.pget(2, 2)), rgba(Color::blue()));
    let mut single = Rasterizer::new(5, 4);
    single.pset(0, 0, Color::red());
    single.pset(4, 3, Color::green());
    single.prectangle(true, 1, 1, 3, 2, Color::blue());
    assert_eq!(pr.rasterizer.color, single.color);
}
