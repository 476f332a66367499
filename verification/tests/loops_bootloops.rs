use bubbledit::bootloop::{Bootloop, Channel, ChannelBootloop};
use bubbledit::storage_loop::Loop;

fn pattern_bytes(seed: u32) -> [u8; 512] {
    let mut x = seed;
    let mut out = [0u8; 512];
    for b in out.iter_mut() {
        x = x.wrapping_mul(1103515245).wrapping_add(12345);
        *b = (x >> 16) as u8;
    }
    out
}

#[test]
fn loop_set_get_wraps_around() {
    let mut lp = Loop::new();
    assert!(!lp.get(5));
    lp.set(5, true);
    assert!(lp.get(5));
    assert!(lp.get(5 + 4096));
    lp.set(4096 + 7, true);
    assert!(lp.get(7));
    lp.set(5, false);
    assert!(!lp.get(5));
}

#[test]
fn loop_decode_lsb_first() {
    let mut enc = [0u8; 512];
    enc[0] = 0x01;
    enc[1] = 0x80;
    let mut lp = Loop::new();
    lp.decode(&enc);
    assert!(lp.get(0));
    assert!(!lp.get(1));
    assert!(lp.get(15));
    assert!(!lp.get(8));
}

#[test]
fn loop_encode_decode_roundtrip() {
    let enc = pattern_bytes(7);
    let mut lp = Loop::new();
    lp.decode(&enc);
    let mut out = [0xffu8; 512];
    lp.encode(&mut out);
    assert_eq!(out, enc);
}

#[test]
fn factory_bootloops() {
    let mut a = ChannelBootloop::new();
    a.set_default(Channel::ChannelA);
    assert_eq!(a.to_string(), "dfdf7f5bffd7ebffcfffff9ff3faffbcf7ffffff");
    assert_eq!(a.ones(), 138);
    let mut b = ChannelBootloop::new();
    b.set_default(Channel::ChannelB);
    assert_eq!(b.to_string(), "755dff77dfff75dfffdfff7f7f5fb7f3ffffffff");
    assert_eq!(b.ones(), 138);
    let mut bl = Bootloop::new();
    bl.set_from_channel(Channel::ChannelA, &a);
    bl.set_from_channel(Channel::ChannelB, &b);
    assert_eq!(
        bl.to_string(),
        "b7bbb3fb7fff379ffbfff77fbd9bfbfff5fffbffffff97ffbf5fbbddefbfdfa5ff7fffffffffffff"
    );
}

#[test]
fn bootloop_text_roundtrip() {
    let text = "0123456789abcdef0123456789abcdef0123456789abcdef0123456789abcdef0123456789abcdef";
    let mut bl = Bootloop::new();
    assert!(bl.set_from_string(text));
    assert_eq!(bl.to_string(), text);
    let bytes = bl.get_as_arru8();
    assert_eq!(bytes[0], 0x01);
    assert_eq!(bytes[39], 0xef);
}

#[test]
fn bootloop_text_rejected() {
    let mut bl = Bootloop::new();
    assert!(bl.set_from_string(&"f".repeat(80)));
    assert!(!bl.set_from_string("00"));
    assert!(!bl.set_from_string(&"g".repeat(80)));
    assert_eq!(bl.to_string(), "f".repeat(80));
    let mut ch = ChannelBootloop::new();
    assert!(!ch.set_from_string(&"0".repeat(41)));
    assert!(ch.set_from_string(&"A".repeat(40)));
    assert_eq!(ch.to_string(), "a".repeat(40));
    assert_eq!(ch.ones(), 80);
}

#[test]
fn channel_split_and_merge() {
    let mut bl = Bootloop::new();
    assert!(bl.set_from_string(&"9".repeat(80)));
    let a = bl.get_channel(Channel::ChannelA);
    let b = bl.get_channel(Channel::ChannelB);
    assert_eq!(a.to_string(), "a".repeat(40));
    assert_eq!(b.to_string(), "5".repeat(40));
    let mut merged = Bootloop::new();
    merged.set_from_channel(Channel::ChannelA, &a);
    merged.set_from_channel(Channel::ChannelB, &b);
    assert_eq!(merged.to_string(), bl.to_string());
}

#[test]
fn random_bootloop_has_requested_ones() {
    for n in [0usize, 1, 139, 160] {
        let mut ch = ChannelBootloop::new();
        ch.set_random(n);
        assert_eq!(ch.ones() as usize, n);
    }
}

#[test]
fn bootloop_saved_to_loop_loads_back() {
    let mut bl = Bootloop::new();
    assert!(bl.set_from_string(
        "b7bbb3fb7fff379ffbfff77fbd9bfbfff5fffbffffff97ffbf5fbbddefbfdfa5ff7fffffffffffff"
    ));
    for off in [0usize, 17, 4095, 5000] {
        let lp = bl.save_to_loop(off);
        let mut back = Bootloop::new();
        let pos = back.load_from_loop(&lp);
        assert_eq!(pos, Some(off % 4096));
        assert_eq!(back.to_string(), bl.to_string());
    }
}

#[test]
fn clear_loop_has_no_bootloop() {
    let lp = Loop::new();
    let mut bl = Bootloop::new();
    assert_eq!(bl.load_from_loop(&lp), None);
}

#[test]
fn set_nth_clear_marks_the_clear_loop_of_that_rank() {
    let mut bl = ChannelBootloop::new();
    bl.set_nth_clear(0);
    bl.set_nth_clear(0);
    bl.set_nth_clear(2);
    assert_eq!(bl.ones(), 3);
    let bytes = bl.get_as_arru8();
    assert_eq!(bytes[0], 0xc8);
    assert!(bytes[1..].iter().all(|b| *b == 0));
    bl.set_nth_clear(156);
    assert_eq!(bl.get_as_arru8()[19], 0x01);
}
