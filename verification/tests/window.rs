use explode::window::SlidingWindow;

#[test]
fn window_keeps_the_most_recent_bytes() {
    let mut window = SlidingWindow::new();
    assert_eq!(window.len(), 0);
    for i in 0..4096u32 {
        window.push((i % 251) as u8);
        assert_eq!(window.len(), i as usize + 1);
    }
    assert_eq!(window.back(1), (4095 % 251) as u8);
    assert_eq!(window.back(4096), 0);
    // a full window gives up its oldest byte
    window.push(200);
    assert_eq!(window.len(), 4096);
    assert_eq!(window.back(1), 200);
    assert_eq!(window.back(2), (4095 % 251) as u8);
    assert_eq!(window.back(4096), 1);
    window.push(201);
    assert_eq!(window.back(4096), 2);
    assert_eq!(window.back(2), 200);
}
