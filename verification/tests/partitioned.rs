use aftershock::buffer::Buffer;
use aftershock::color::Color;
use aftershock::partitioned_buffer::{PartitionedBuffer, PartitionScheme};

fn rgba(c: Color) -> (u8, u8, u8, u8) {
    (c.r, c.g, c.b, c.a)
}

#[test]
fn scheme_for_core_counts() {
    assert_eq!(PartitionedBuffer::scheme_for(1, 10, 10), PartitionScheme::Full);
    assert_eq!(PartitionedBuffer::scheme_for(2, 10, 20), PartitionScheme::Split2x1);
    assert_eq!(PartitionedBuffer::scheme_for(2, 20, 10), PartitionScheme::Split1x2);
    assert_eq!(PartitionedBuffer::scheme_for(3, 10, 10), PartitionScheme::Split3x1);
    assert_eq!(PartitionedBuffer::scheme_for(4, 10, 10), PartitionScheme::Split2x2);
    assert_eq!(PartitionedBuffer::scheme_for(5, 10, 10), PartitionScheme::Split2x2);
    assert_eq!(PartitionedBuffer::scheme_for(6, 10, 10), PartitionScheme::Split3x2);
    assert_eq!(PartitionedBuffer::scheme_for(7, 10, 10), PartitionScheme::Split4x4);
    assert_eq!(PartitionedBuffer::scheme_for(8, 10, 10), PartitionScheme::Split3x3);
    assert_eq!(PartitionedBuffer::scheme_for(12, 10, 10), PartitionScheme::Split4x4);
    assert_eq!(PartitionedBuffer::scheme_for(20, 10, 10), PartitionScheme::Split5x5);
    assert_eq!(PartitionedBuffer::scheme_for(24, 10, 10), PartitionScheme::Split5x5);
    assert_eq!(PartitionedBuffer::scheme_for(25, 10, 10), PartitionScheme::Split8x8);
    assert_eq!(PartitionedBuffer::scheme_for(0, 10, 10), PartitionScheme::Split4x4);
}

#[test]
fn partitioned_new_splits_grid() {
    let pb = PartitionedBuffer::new(8, 6, 4, 0);
    assert_eq!(pb.scheme, PartitionScheme::Split2x2);
    assert_eq!(pb.partitions.len(), 4);
    let cells: Vec<(usize, usize, usize, usize)> = pb.partitions.iter().map(|p| (p.offset_x, p.offset_y, p.width, p.height)).collect();
    assert_eq!(cells, vec![(0, 0, 4, 3), (4, 0, 4, 3), (0, 3, 4, 3), (4, 3, 4, 3)]);
    assert_eq!(pb.buffer.color.len(), 8 * 6 * 4);
}

#[test]
fn partitioned_new_with_cpu_count_lies_inside() {
    let pb = PartitionedBuffer::new(64, 48, 0, PartitionedBuffer::PARALLEL_THRESHOLD_DEFAULT);
    assert!(!pb.partitions.is_empty());
    for p in &pb.partitions {
        assert!(p.offset_x + p.width <= 64);
        assert!(p.offset_y + p.height <= 48);
    }
    assert_eq!(pb.threshold, 65536);
}

#[test]
fn partitioned_set_core_limit_regenerates() {
    let mut pb = PartitionedBuffer::new(10, 4, 1, 0);
    assert_eq!(pb.partitions.len(), 1);
    pb.set_core_limit(2);
    assert_eq!(pb.scheme, PartitionScheme::Split1x2);
    let cells: Vec<(usize, usize, usize, usize)> = pb.partitions.iter().map(|p| (p.offset_x, p.offset_y, p.width, p.height)).collect();
    assert_eq!(cells, vec![(0, 0, 5, 4), (5, 0, 5, 4)]);
}

#[test]
fn partitioned_prectangle_matches_single_buffer() {
    let mut pb = PartitionedBuffer::new(8, 8, 4, 1);
    pb.prectangle(true, 2, 1, 5, 6, Color::red());
    let mut b = Buffer::new(8, 8);
    b.prectangle(true, 2, 1, 5, 6, Color::red());
    assert_eq!(pb.buffer.color, b.color);
    let mut small = PartitionedBuffer::new(8, 8, 4, 1000);
    small.prectangle(true, 2, 1, 5, 6, Color::red());
    assert_eq!(small.buffer.color, b.color);
}

#[test]
fn partitioned_pcircle_parts_matches_single_buffer() {
    let mut pb = PartitionedBuffer::new(12, 12, 4, 1);
    pb.pcircle_parts(true, 5, 6, 3, Color::green());
    let mut b = Buffer::new(12, 12);
    b.pcircle(true, 5, 6, 3, Color::green());
    assert_eq!(pb.buffer.color, b.color);
}

#[test]
fn partitioned_pimg_matches_single_buffer() {
    let mut img = Buffer::new(3, 3);
    img.clear_color(Color::blue());
    img.pset(1, 1, Color::clear());
    let mut pb = PartitionedBuffer::new(8, 8, 4, 1);
    pb.pimg(&img, 3, 2);
    let mut b = Buffer::new(8, 8);
    b.pimg(&img, 3, 2);
    assert_eq!(pb.buffer.color, b.color);
}

#[test]
fn partitioned_clear_color_and_pixels() {
    let mut pb = PartitionedBuffer::new(4, 4, 4, 0);
    pb.clear_color(Color::yellow());
    assert_eq!(rgba(pb.pget(3, 3)), rgba(Color::yellow()));
    for p in &pb.partitions {
        assert!(p.color.chunks(4).all(|c| c == [255, 255, 0, 255]));
    }
    pb.pset(1, 2, Color::black());
    assert_eq!(rgba(pb.pget(1, 2)), rgba(Color::black()));
    assert_eq!(rgba(pb.pget_wrap(5, 6)), rgba(Color::black()));
    pb.clear();
    assert!(pb.buffer.color.iter().all(|&v| v == 0));
}

#[test]
fn partitioned_disable_drawing_blocks_pset() {
    let mut pb = PartitionedBuffer::new(4, 4, 1, 0);
    pb.disable_drawing();
    pb.pset(0, 0, Color::white());
    assert_eq!(rgba(pb.pget(0, 0)), (0, 0, 0, 0));
    pb.enable_drawing();
    pb.pset(0, 0, Color::white());
    assert_eq!(rgba(pb.pget(0, 0)), rgba(Color::white()));
}

#[test]
fn partitioned_debug_view_outlines_partitions() {
    let mut pb = PartitionedBuffer::new(8, 8, 4, 0);
    pb.draw_debug_view();
    let magenta = (255, 0, 255, 255);
    assert_eq!(rgba(pb.pget(0, 0)), magenta);
    assert_eq!(rgba(pb.pget(5, 4)), magenta);
    assert_eq!(rgba(pb.pget(4, 6)), magenta);
    assert_eq!(rgba(pb.pget(6, 6)), (0, 0, 0, 0));
}

#[test]
fn buffer_into_partitioned_keeps_pixels() {
    let mut b = Buffer::new(6, 4);
    b.pset(5, 3, Color::red());
    let pb = b.into_partitioned();
    assert_eq!(pb.buffer.color, b.color);
    assert_eq!((pb.buffer.width, pb.buffer.height), (6, 4));
}

#[test]
fn partitioned_resize_and_blit() {
    let mut pb = PartitionedBuffer::new(4, 4, 4, 0);
    pb.resize(6, 6);
    assert_eq!(pb.buffer.color.len(), 6 * 6 * 4);
    assert_eq!(pb.partitions.len(), 4);
    let mut img = Buffer::new(2, 2);
    img.clear_color(Color::red());
    pb.blit(&img, 4, 4);
    assert_eq!(rgba(pb.pget(5, 5)), rgba(Color::red()));
    assert_eq!(rgba(pb.pget(3, 3)), (0, 0, 0, 0));
}

#[test]
fn partitioned_pimg_in_parts_matches_single_buffer() {
    // 260 by 260 pixels of image, above the default threshold: drawn part by part
    let mut img = Buffer::new(260, 260);
    for y in 0..260 {
        for x in 0..260 {
            if (x * 3 + y) % 5 != 0 {
                img.pset(x, y, Color::new((x % 256) as u8, (y % 256) as u8, 40, 255));
            }
        }
    }
    let mut pb = PartitionedBuffer::new(300, 280, 4, PartitionedBuffer::PARALLEL_THRESHOLD_DEFAULT);
    let mut single = Buffer::new(300, 280);
    pb.pimg(&img, 30, -7);
    single.pimg(&img, 30, -7);
    assert_eq!(pb.buffer.color, single.color);
}

#[test]
fn partitioned_grid_takes_remainder() {
    let pb = PartitionedBuffer::new(5, 4, 2, 1);
    assert_eq!(pb.scheme, PartitionScheme::Split1x2);
    let cells: Vec<(usize, usize, usize, usize)> = pb.partitions.iter().map(|p| (p.offset_x, p.offset_y, p.width, p.height)).collect();
    assert_eq!(cells, vec![(0, 0, 2, 4), (2, 0, 3, 4)]);
    let odd = PartitionedBuffer::new(7, 5, 4, 1);
    let cells: Vec<(usize, usize, usize, usize)> = odd.partitions.iter().map(|p| (p.offset_x, p.offset_y, p.width, p.height)).collect();
    assert_eq!(cells, vec![(0, 0, 3, 2), (3, 0, 4, 2), (0, 2, 3, 3), (3, 2, 4, 3)]);
}

#[test]
fn partitioned_prectangle_keeps_earlier_pixels() {
    let mut pb = PartitionedBuffer::new(4, 4, 1, 1);
    pb.pset(0, 0, Color::red());
    pb.prectangle(true, 2, 2, 1, 1, Color::blue());
    assert_eq!(rgba(pb.pget(2, 2)), rgba(Color::blue()));
    assert_eq!(rgba(pb.pget(0, 0)), rgba(Color::red()));
}

#[test]
fn partitioned_prectangle_on_uneven_grid_matches_single_buffer() {
    let mut pb = PartitionedBuffer::new(7, 5, 4, 1);
    pb.pset(0, 0, Color::red());
    pb.pset(6, 4, Color::green());
    pb.prectangle(true, 1, 1, 5, 3, Color::blue());
    pb.prectangle(true, 5, 0, 4, 2, Color::white());
    let mut b = Buffer::new(7, 5);
    b.pset(0, 0, Color::red());
    b.pset(6, 4, Color::green());
    b.prectangle(true, 1, 1, 5, 3, Color::blue());
    b.prectangle(true, 5, 0, 4, 2, Color::white());
    assert_eq!(pb.buffer.color, b.color);
    assert_eq!(rgba(pb.pget(6, 4)), rgba(Color::green()));
}

#[test]
fn partitioned_pcircle_parts_keeps_earlier_pixels() {
    let mut pb = PartitionedBuffer::new(9, 7, 4, 1);
    pb.pset(8, 0, Color::red());
    pb.pcircle_parts(true, 4, 3, 2, Color::green());
    let mut b = Buffer::new(9, 7);
    b.pset(8, 0, Color::red());
    b.pcircle(true, 4, 3, 2, Color::green());
    assert_eq!(pb.buffer.color, b.color);
}

#[test]
fn partitioned_pcircle_parts_outline_matches_single_buffer() {
    let mut pb = PartitionedBuffer::new(11, 9, 6, 1);
    pb.pset(0, 8, Color::red());
    pb.pcircle_parts(false, 5, 4, 4, Color::blue());
    let mut b = Buffer::new(11, 9);
    b.pset(0, 8, Color::red());
    b.pcircle(false, 5, 4, 4, Color::blue());
    assert_eq!(pb.buffer.color, b.color);
    assert_eq!(rgba(pb.pget(0, 8)), rgba(Color::red()));
}

#[test]
fn partitioned_pimgrect_threshold_zero_matches_buffer() {
    let mut img = Buffer::new(4, 3);
    for y in 0..3 {
        for x in 0..4 {
            img.pset(x, y, Color::new((x * 40) as u8, (y * 60) as u8, 7, 255));
        }
    }
    let mut pb = PartitionedBuffer::new(6, 5, 4, 0);
    pb.pset(5, 4, Color::red());
    pb.pimgrect(&img, 1, 1, 1, 0, 3, 2);
    let mut b = Buffer::new(6, 5);
    b.pset(5, 4, Color::red());
    b.pimgrect(&img, 1, 1, 1, 0, 3, 2);
    assert_eq!(pb.buffer.color, b.color);
    assert!(pb.partitions.iter().all(|p| p.color.iter().all(|&v| v == 0)));
}

#[test]
fn partitioned_partitions_tile_the_buffer() {
    for &(w, h) in &[(5usize, 4usize), (7, 5), (9, 9), (3, 8), (1, 1)] {
        for cores in [1usize, 2, 3, 4, 6, 8, 12, 20, 32] {
            let pb = PartitionedBuffer::new(w, h, cores, 0);
            assert!(!pb.partitions.is_empty());
            for y in 0..h {
                for x in 0..w {
                    let n = pb.partitions.iter().filter(|p| p.offset_x <= x && x < p.offset_x + p.width && p.offset_y <= y && y < p.offset_y + p.height).count();
                    assert_eq!(n, 1, "pixel ({}, {}) of {}x{} with {} cores", x, y, w, h, cores);
                }
            }
        }
    }
}
