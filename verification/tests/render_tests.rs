use mpv_ne::render::{black_frame, frame_step, send_frame, FrameStep, RenderLoop};

#[test]
fn first_frame_makes_a_target() {
    let s = RenderLoop::default();
    let (s, step) = frame_step(s, 640, 360, 1);
    assert_eq!(step, FrameStep::Draw { w: 640, h: 360, resized: true, new_target: true });
    assert_eq!(s, RenderLoop { last_w: 640, last_h: 360, has_target: true });
}

#[test]
fn no_size_or_no_news_skips() {
    let s = RenderLoop::default();
    assert_eq!(frame_step(s, 0, 360, 1), (s, FrameStep::Skip));
    assert_eq!(frame_step(s, 640, 0, 1), (s, FrameStep::Skip));
    let (s, _) = frame_step(s, 640, 360, 1);
    assert_eq!(frame_step(s, 640, 360, 0), (s, FrameStep::Skip));
    assert_eq!(frame_step(s, 640, 360, 2), (s, FrameStep::Skip));
}

#[test]
fn new_frame_at_same_size_keeps_the_target() {
    let (s, _) = frame_step(RenderLoop::default(), 640, 360, 1);
    let (s2, step) = frame_step(s, 640, 360, 3);
    assert_eq!(step, FrameStep::Draw { w: 640, h: 360, resized: false, new_target: false });
    assert_eq!(s2, s);
}

#[test]
fn resize_redraws_a_paused_picture() {
    let (s, _) = frame_step(RenderLoop::default(), 640, 360, 1);
    let (s, step) = frame_step(s, 1280, 720, 0);
    assert_eq!(step, FrameStep::Draw { w: 1280, h: 720, resized: true, new_target: true });
    assert_eq!((s.last_w, s.last_h), (1280, 720));
}

#[test]
fn frames_are_throttled_unless_resized() {
    assert!(send_frame(true, 0));
    assert!(!send_frame(false, 32));
    assert!(send_frame(false, 33));
    assert!(send_frame(false, 1000));
}

#[test]
fn black_frames_are_opaque() {
    let f = black_frame(3, 2);
    assert_eq!(f.len(), 24);
    for (i, b) in f.iter().enumerate() {
        assert_eq!(*b, if i % 4 == 3 { 255 } else { 0 });
    }
    assert!(black_frame(0, 5).is_empty());
}
