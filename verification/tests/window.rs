use music_visualiser_tauri::RollingWindow;

fn contents(window: &RollingWindow) -> Vec<i16> {
    window.snapshot().into_iter().collect()
}

#[test]
fn fresh_window_is_silence() {
    let window = RollingWindow::new(8);
    assert_eq!(window.capacity(), 8);
    assert_eq!(window.len(), 8);
    assert_eq!(contents(&window), vec![0; 8]);
}

#[test]
fn fresh_window_of_no_capacity_is_empty() {
    let window = RollingWindow::new(0);
    assert_eq!(window.len(), 0);
    assert_eq!(window.extremes(), None);
    assert_eq!(window.get(0), None);
}

#[test]
fn two_chunks_fill_a_window_of_eight() {
    let mut window = RollingWindow::new(8);
    window.push_chunk(&[1, 2, 3, 4]);
    assert_eq!(contents(&window), vec![0, 0, 0, 0, 1, 2, 3, 4]);
    window.push_chunk(&[5, 6, 7, 8]);
    assert_eq!(contents(&window), vec![1, 2, 3, 4, 5, 6, 7, 8]);
}

#[test]
fn length_equals_capacity_after_every_push() {
    let mut window = RollingWindow::new(5);
    let chunks: Vec<Vec<i16>> = vec![
        vec![1],
        vec![],
        vec![2, 3, 4],
        vec![5, 6, 7, 8, 9],
        vec![10, 11, 12, 13, 14, 15, 16],
        vec![17, 18],
    ];
    for chunk in &chunks {
        window.push_chunk(chunk);
        assert_eq!(window.len(), 5);
        assert_eq!(window.len(), window.capacity());
    }
    assert_eq!(contents(&window), vec![14, 15, 16, 17, 18]);
}

#[test]
fn push_evicts_the_oldest_and_keeps_order() {
    let mut window = RollingWindow::new(5);
    window.push_chunk(&[1, 2, 3, 4, 5]);
    window.push_chunk(&[9, 9]);
    assert_eq!(contents(&window), vec![3, 4, 5, 9, 9]);
}

#[test]
fn empty_chunk_changes_nothing() {
    let mut window = RollingWindow::new(3);
    window.push_chunk(&[7, 8, 9]);
    window.push_chunk(&[]);
    assert_eq!(contents(&window), vec![7, 8, 9]);
}

#[test]
fn chunk_longer_than_the_window_leaves_its_tail() {
    let mut window = RollingWindow::new(3);
    window.push_chunk(&[1, 2, 3, 4, 5]);
    assert_eq!(contents(&window), vec![3, 4, 5]);
}

#[test]
fn full_size_window_slides_by_one_chunk() {
    let mut window = RollingWindow::new(65536);
    let chunk: Vec<i16> = (1..=512).collect();
    window.push_chunk(&chunk);
    assert_eq!(window.len(), 65536);
    assert_eq!(window.get(65536 - 513), Some(0));
    assert_eq!(window.get(65536 - 512), Some(1));
    assert_eq!(window.get(65535), Some(512));
    assert_eq!(window.get(65536), None);
}

#[test]
fn extremes_are_the_lowest_and_highest_sample() {
    let mut window = RollingWindow::new(4);
    window.push_chunk(&[3, -7, 12, 0]);
    assert_eq!(window.extremes(), Some((-7, 12)));
    window.push_chunk(&[i16::MIN, i16::MAX]);
    assert_eq!(window.extremes(), Some((i16::MIN, i16::MAX)));
}

#[test]
fn extremes_of_a_constant_window_coincide() {
    let mut window = RollingWindow::new(3);
    window.push_chunk(&[5, 5, 5]);
    assert_eq!(window.extremes(), Some((5, 5)));
}
