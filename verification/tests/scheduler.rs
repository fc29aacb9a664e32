use raytracer::options::{RenderState, ShadowMode};
use raytracer::scheduler::{
    checkerboard_row, is_checker_pixel, render_checkerboard, render_checkerboard_scaled,
    render_parallel, render_parallel_scaled, scaled_size, shade_row, upscale_nearest, FrameBuffers,
};
use std::cell::RefCell;

fn coded(x: usize, y: usize) -> u32 {
    (1000 + 10 * y + x) as u32
}

#[test]
fn checker_pixel_follows_parity_and_phase() {
    assert!(is_checker_pixel(0, 0, false));
    assert!(!is_checker_pixel(1, 0, false));
    assert!(is_checker_pixel(1, 0, true));
    assert!(is_checker_pixel(0, 1, true));
    assert!(is_checker_pixel(1, 1, false));
    assert!(!is_checker_pixel(2, 0, true));
    assert!(is_checker_pixel(usize::MAX, usize::MAX, false));
    assert!(is_checker_pixel(usize::MAX, 0, true));
}

#[test]
fn two_phases_select_every_pixel_once() {
    for y in 0..5usize {
        for x in 0..7usize {
            assert_ne!(is_checker_pixel(x, y, false), is_checker_pixel(x, y, true));
        }
    }
}

#[test]
fn checkerboard_row_of_four_alternates_over_two_frames() {
    let calls: RefCell<Vec<usize>> = RefCell::new(Vec::new());
    let shade = |x: usize, _y: usize| -> u32 {
        calls.borrow_mut().push(x);
        100 + x as u32
    };
    let prev = [1u32, 2, 3, 4];
    let mut frame1 = [0u32; 4];
    checkerboard_row(&mut frame1, &prev, 0, false, &shade);
    assert_eq!(frame1, [100, 2, 102, 4]);
    assert_eq!(*calls.borrow(), vec![0, 2]);

    calls.borrow_mut().clear();
    let mut frame2 = [0u32; 4];
    checkerboard_row(&mut frame2, &frame1, 0, true, &shade);
    assert_eq!(frame2, [100, 101, 102, 103]);
    assert_eq!(*calls.borrow(), vec![1, 3]);
}

#[test]
fn checkerboard_row_on_odd_line_starts_one_later() {
    let prev = [7u32, 7, 7, 7];
    let mut row = [0u32; 4];
    checkerboard_row(&mut row, &prev, 1, false, &|x: usize, y: usize| coded(x, y));
    assert_eq!(row, [7, 1011, 7, 1013]);
}

#[test]
fn shade_row_shades_every_pixel() {
    let mut row = [0u32; 3];
    shade_row(&mut row, 4, &|x: usize, y: usize| coded(x, y));
    assert_eq!(row, [1040, 1041, 1042]);
    let mut empty: [u32; 0] = [];
    shade_row(&mut empty, 0, &|_x: usize, _y: usize| 1);
    assert_eq!(empty.len(), 0);
}

#[test]
fn render_parallel_is_row_major() {
    let mut buffer = vec![0u32; 6];
    render_parallel(&mut buffer, 3, 2, &|x: usize, y: usize| coded(x, y));
    assert_eq!(buffer, vec![1000, 1001, 1002, 1010, 1011, 1012]);
}

#[test]
fn render_checkerboard_mixes_fresh_and_kept_pixels() {
    let prev = vec![1u32, 2, 3, 4, 5, 6];
    let mut buffer = vec![0u32; 6];
    render_checkerboard(&mut buffer, &prev, 3, 2, false, &|x: usize, y: usize| coded(x, y));
    assert_eq!(buffer, vec![1000, 2, 1002, 4, 1011, 6]);
    render_checkerboard(&mut buffer, &prev, 3, 2, true, &|x: usize, y: usize| coded(x, y));
    assert_eq!(buffer, vec![1, 1001, 3, 1010, 5, 1012]);
}

#[test]
fn scaled_size_divides_and_rounds_down() {
    assert_eq!(scaled_size(800, 600, 1), (800, 600));
    assert_eq!(scaled_size(800, 600, 0), (800, 600));
    assert_eq!(scaled_size(800, 600, 2), (400, 300));
    assert_eq!(scaled_size(800, 600, 3), (266, 200));
    assert_eq!(scaled_size(800, 600, 4), (200, 150));
    assert_eq!(scaled_size(8, 8, 2), (4, 4));
}

#[test]
fn upscale_by_two_makes_two_by_two_blocks() {
    let low: Vec<u32> = (0..16).collect();
    let mut full = vec![99u32; 64];
    upscale_nearest(&mut full, &low, 8, 8, 4, 4, 2);
    for y in 0..8usize {
        for x in 0..8usize {
            assert_eq!(full[y * 8 + x], low[(y / 2) * 4 + x / 2]);
        }
    }
    assert_eq!(&full[0..8], &[0, 0, 1, 1, 2, 2, 3, 3]);
    assert_eq!(&full[56..64], &[12, 12, 13, 13, 14, 14, 15, 15]);
}

#[test]
fn upscale_repeats_last_row_and_column_at_the_edge() {
    let low = vec![10u32, 20, 30, 40];
    let mut full = vec![0u32; 25];
    upscale_nearest(&mut full, &low, 5, 5, 2, 2, 2);
    assert_eq!(
        full,
        vec![
            10, 10, 20, 20, 20, 10, 10, 20, 20, 20, 30, 30, 40, 40, 40, 30, 30, 40, 40, 40, 30, 30, 40,
            40, 40
        ]
    );
}

#[test]
fn render_scaled_by_two_on_eight_by_eight() {
    let mut full = vec![0u32; 64];
    let mut low: Vec<u32> = Vec::new();
    render_parallel_scaled(&mut full, &mut low, 8, 8, 2, &|x: usize, y: usize| coded(x, y));
    assert_eq!(low.len(), 16);
    for y in 0..4usize {
        for x in 0..4usize {
            assert_eq!(low[y * 4 + x], coded(x, y));
        }
    }
    for y in 0..8usize {
        for x in 0..8usize {
            assert_eq!(full[y * 8 + x], coded(x / 2, y / 2));
        }
    }
}

#[test]
fn render_scaled_at_scale_one_leaves_lowres_alone() {
    let mut full = vec![0u32; 4];
    let mut low = vec![5u32, 6];
    render_parallel_scaled(&mut full, &mut low, 2, 2, 1, &|x: usize, y: usize| coded(x, y));
    assert_eq!(full, vec![1000, 1001, 1010, 1011]);
    assert_eq!(low, vec![5, 6]);
}

#[test]
fn render_scaled_by_three_clamps_the_right_edge() {
    let mut full = vec![0u32; 8];
    let mut low: Vec<u32> = Vec::new();
    render_parallel_scaled(&mut full, &mut low, 8, 1, 1, &|x: usize, _y: usize| x as u32);
    assert_eq!(full, vec![0, 1, 2, 3, 4, 5, 6, 7]);
    let mut wide = vec![0u32; 24];
    render_parallel_scaled(&mut wide, &mut low, 8, 3, 3, &|x: usize, _y: usize| 50 + x as u32);
    assert_eq!(low, vec![50, 51]);
    assert_eq!(&wide[0..8], &[50, 50, 50, 51, 51, 51, 51, 51]);
    assert_eq!(&wide[16..24], &[50, 50, 50, 51, 51, 51, 51, 51]);
}

#[test]
fn checkerboard_scaled_full_resolution_keeps_the_frame() {
    let mut full = vec![0u32; 4];
    let mut prev_full = vec![1u32, 2, 3, 4];
    let mut low = vec![9u32];
    let mut prev_low = vec![8u32];
    render_checkerboard_scaled(
        &mut full,
        &mut prev_full,
        &mut low,
        &mut prev_low,
        2,
        2,
        1,
        false,
        &|x: usize, y: usize| coded(x, y),
    );
    assert_eq!(full, vec![1000, 2, 3, 1011]);
    assert_eq!(prev_full, full);
    assert_eq!(low, vec![9]);
    assert_eq!(prev_low, vec![8]);
}

#[test]
fn checkerboard_scaled_reduced_resolution_resizes_and_upscales() {
    let mut full = vec![0u32; 16];
    let mut prev_full = vec![3u32; 16];
    let mut low: Vec<u32> = Vec::new();
    let mut prev_low = vec![71u32, 72];
    render_checkerboard_scaled(
        &mut full,
        &mut prev_full,
        &mut low,
        &mut prev_low,
        4,
        4,
        2,
        true,
        &|x: usize, y: usize| coded(x, y),
    );
    assert_eq!(low, vec![71, 1001, 1010, 0]);
    assert_eq!(prev_low, low);
    assert_eq!(prev_full, vec![3u32; 16]);
    assert_eq!(
        full,
        vec![71, 71, 1001, 1001, 71, 71, 1001, 1001, 1010, 1010, 0, 0, 1010, 1010, 0, 0]
    );
}

#[test]
fn frame_buffers_start_black() {
    let buffers = FrameBuffers::new(3, 2).unwrap();
    assert_eq!(buffers.width, 3);
    assert_eq!(buffers.height, 2);
    assert_eq!(buffers.frame, vec![0u32; 6]);
    assert_eq!(buffers.prev_frame, vec![0u32; 6]);
    assert!(buffers.lowres.is_empty());
    assert!(buffers.prev_lowres.is_empty());
    assert!(FrameBuffers::new(usize::MAX, 2).is_none());
    assert!(FrameBuffers::new(0, usize::MAX).is_some());
}

#[test]
fn frame_buffers_checkerboard_shades_each_pixel_once_in_two_frames() {
    let counts: RefCell<Vec<u32>> = RefCell::new(vec![0; 4]);
    let shade = |x: usize, y: usize| -> u32 {
        counts.borrow_mut()[y * 4 + x] += 1;
        coded(x, y)
    };
    let mut buffers = FrameBuffers::new(4, 1).unwrap();
    let state = RenderState::configured(1, ShadowMode::Off, 2, true).unwrap();
    assert!(!state.checker_phase);

    let state = buffers.render(state, &shade);
    assert!(state.checker_phase);
    assert_eq!(buffers.frame, vec![1000, 0, 1002, 0]);
    assert_eq!(*counts.borrow(), vec![1, 0, 1, 0]);

    let state = buffers.render(state, &shade);
    assert!(!state.checker_phase);
    assert_eq!(buffers.frame, vec![1000, 1001, 1002, 1003]);
    assert_eq!(*counts.borrow(), vec![1, 1, 1, 1]);
    assert_eq!(buffers.prev_frame, buffers.frame);
}

#[test]
fn frame_buffers_plain_mode_keeps_a_copy_for_reuse() {
    let mut buffers = FrameBuffers::new(4, 4).unwrap();
    let state = RenderState::configured(2, ShadowMode::Full, 3, false).unwrap();
    let next = buffers.render(state, &|x: usize, y: usize| coded(x, y));
    assert_eq!(next, state);
    assert_eq!(buffers.lowres, vec![1000, 1001, 1010, 1011]);
    assert_eq!(buffers.prev_lowres, buffers.lowres);
    assert_eq!(buffers.prev_frame, vec![0u32; 16]);
    assert_eq!(buffers.frame[5], 1000);
    assert_eq!(buffers.frame[15], 1011);

    let full = RenderState::configured(1, ShadowMode::Full, 3, false).unwrap();
    buffers.render(full, &|x: usize, y: usize| coded(x, y));
    assert_eq!(buffers.frame[15], 1033);
    assert_eq!(buffers.prev_frame, buffers.frame);
}
