use lzss::lzss::lzss_buffers;
use lzss::options::PNGOptions;
use lzss::search::find_first_match;
use lzss::sliding_window::{SlidingWindow, SlidingWindowState};

#[test]
fn window_phases_over_short_input() {
    let data: [u8; 5] = [1, 2, 3, 4, 5];
    let mut w = SlidingWindow::new(&data, 3);
    let expected: [(&[u8], SlidingWindowState); 7] = [
        (&[1], SlidingWindowState::Expanded),
        (&[1, 2], SlidingWindowState::Expanded),
        (&[1, 2, 3], SlidingWindowState::Expanded),
        (&[2, 3, 4], SlidingWindowState::Maintained),
        (&[3, 4, 5], SlidingWindowState::Maintained),
        (&[4, 5], SlidingWindowState::Shrinked),
        (&[5], SlidingWindowState::Shrinked),
    ];
    for (win, state) in &expected {
        let (got_win, got_state) = w.next().unwrap();
        assert_eq!(got_win, *win);
        assert_eq!(got_state, *state);
    }
    assert!(w.next().is_none());
}

#[test]
fn window_single_element() {
    let data: [u8; 1] = [9];
    let mut w = SlidingWindow::new(&data, 4);
    let (win, state) = w.next().unwrap();
    assert_eq!(win, [9]);
    assert_eq!(state, SlidingWindowState::Expanded);
    assert!(w.next().is_none());
}

#[test]
fn window_zero_capacity_ends_at_once() {
    let data: [u8; 3] = [1, 2, 3];
    let mut w = SlidingWindow::new(&data, 0);
    assert!(w.next().is_none());
}

#[test]
fn window_empty_input_ends_at_once() {
    let data: [u8; 0] = [];
    let mut w = SlidingWindow::new(&data, 5);
    assert!(w.next().is_none());
}

#[test]
fn buffers_split_expanded() {
    let window: [u8; 4] = [1, 2, 3, 4];
    let (search, look) = lzss_buffers(&window, &SlidingWindowState::Expanded, 2, 2);
    assert_eq!(search, [1, 2]);
    assert_eq!(look, [3, 4]);
}

#[test]
fn buffers_split_expanded_short_window() {
    let window: [u8; 2] = [1, 2];
    let (search, look) = lzss_buffers(&window, &SlidingWindowState::Expanded, 1, 3);
    assert_eq!(search, []);
    assert_eq!(look, [1, 2]);
}

#[test]
fn buffers_split_maintained() {
    let window: [u8; 5] = [1, 2, 3, 4, 5];
    let (search, look) = lzss_buffers(&window, &SlidingWindowState::Maintained, 3, 2);
    assert_eq!(search, [1, 2, 3]);
    assert_eq!(look, [4, 5]);
}

#[test]
fn buffers_shrinked_keeps_one_look_ahead_byte() {
    let window: [u8; 2] = [4, 5];
    let (search, look) = lzss_buffers(&window, &SlidingWindowState::Shrinked, 3, 2);
    assert_eq!(search, [4]);
    assert_eq!(look, [5]);
}

#[test]
fn first_match_is_leftmost() {
    let bytes: [u8; 4] = [9, 7, 9, 7];
    assert_eq!(find_first_match(&bytes, 7), Some(1));
}

#[test]
fn first_match_none_when_absent() {
    let bytes: [u8; 3] = [1, 2, 3];
    assert_eq!(find_first_match(&bytes, 9), None);
}

#[test]
fn first_match_past_first_block() {
    let mut bytes = vec![0u8; 40];
    bytes[21] = 5;
    bytes[33] = 5;
    assert_eq!(find_first_match(&bytes, 5), Some(21));
}

#[test]
fn first_match_in_remainder() {
    let mut bytes = vec![0u8; 19];
    bytes[17] = 5;
    assert_eq!(find_first_match(&bytes, 5), Some(17));
}

#[test]
fn first_match_empty_sequence() {
    let bytes: [u8; 0] = [];
    assert_eq!(find_first_match(&bytes, 1), None);
}

#[test]
fn options_default_is_deflate_compatible() {
    let options = PNGOptions::default();
    assert_eq!(options.look_ahead_buffer, 258);
    assert_eq!(options.search_buffer, 32 * 1024 - 258);
}
