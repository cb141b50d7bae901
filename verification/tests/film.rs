use videonsole::film::{draws, layout_of, planes_of, small_enough, Layout, PixelFormat, BEHIND_EDGE};

/// The picture the panels read is the film's own shape, small.
#[test]
fn the_film_is_laid_down_small_in_its_own_proportion() {
    for (width, height) in [(1920, 1080), (1080, 1920), (640, 480), (460, 816)] {
        let (across, down) = small_enough(width, height);
        assert_eq!(
            across.max(down),
            BEHIND_EDGE,
            "{width}x{height} is not small"
        );
        let wanted = width as f32 / height as f32;
        let got = across as f32 / down as f32;
        assert!(
            (got / wanted - 1.0).abs() < 0.02,
            "{width}x{height} came out {across}x{down}, which is not its shape"
        );
    }
}

#[test]
fn no_film_is_laid_down_at_nothing_across() {
    assert_eq!(small_enough(4000, 1), (BEHIND_EDGE, 1));
    assert_eq!(small_enough(1, 4000), (1, BEHIND_EDGE));
    assert_eq!(small_enough(0, 0), (1, 1));
    // And nothing is ever laid down larger than it was asked to be.
    let (across, down) = small_enough(64, 48);
    assert!(across <= BEHIND_EDGE && down <= BEHIND_EDGE);
}

#[test]
fn only_the_two_arrangements_the_shader_reads_are_drawn() {
    assert!(draws(PixelFormat::Yuv420p));
    assert!(draws(PixelFormat::Yuvj420p));
    assert!(draws(PixelFormat::Nv12));
    assert!(!draws(PixelFormat::Other), "anything else is converted first");
    assert_eq!(layout_of(PixelFormat::Yuv420p), Some(Layout::Three));
    assert_eq!(layout_of(PixelFormat::Yuvj420p), Some(Layout::Three));
    assert_eq!(layout_of(PixelFormat::Nv12), Some(Layout::Two));
    assert_eq!(layout_of(PixelFormat::Other), None);
    assert!(draws(PixelFormat::Nv12));
    assert!(!draws(PixelFormat::Other));
    assert_eq!(planes_of(Layout::Three), 3);
    assert_eq!(planes_of(Layout::Two), 2);
}
