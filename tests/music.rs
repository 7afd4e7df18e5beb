use pyxel_engine::music::Music;
use pyxel_engine::settings::CHANNEL_COUNT;

#[test]
fn new() {
    let music = Music::new();

    for i in 0..CHANNEL_COUNT {
        assert_eq!(music.sequences[i as usize].len(), 0);
    }
}

#[test]
fn set() {
    let mut music = Music::new();

    music.set(&[&[0, 1, 2], &[1, 2, 3], &[2, 3, 4], &[3, 4, 5]]);

    for i in 0..CHANNEL_COUNT {
        assert_eq!(&music.sequences[i as usize], &vec![i, i + 1, i + 2]);
    }
}
