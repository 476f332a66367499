use bubbledit::bootloop::{Bootloop, Channel, ChannelBootloop};
use bubbledit::channel::ChannelMemory;

fn bits_from_seed(n: usize, seed: u32) -> Vec<bool> {
    let mut x = seed;
    (0..n)
        .map(|_| {
            x = x.wrapping_mul(1664525).wrapping_add(1013904223);
            (x >> 28) & 1 == 1
        })
        .collect()
}

fn default_channel(ch: Channel) -> ChannelMemory {
    let mut bl = ChannelBootloop::new();
    bl.set_default(ch);
    let mut c = ChannelMemory::new();
    c.set_bl(&bl);
    c
}

#[test]
fn la_pa_maps() {
    assert_eq!(ChannelMemory::la_to_pa(0), 0);
    assert_eq!(ChannelMemory::la_to_pa(1), 0x171);
    for la in 0..2048u16 {
        let pa = ChannelMemory::la_to_pa(la);
        assert!(pa < 4096);
        assert_eq!(pa & 2, 0);
        assert_eq!(ChannelMemory::pa_to_la(pa), (la, 0));
        assert_eq!(ChannelMemory::pa_to_la(pa | 2), (la, (pa & 1) as u8 + 1));
    }
}

#[test]
fn pa_offset_wraps() {
    assert_eq!(ChannelMemory::pa_off(4000, 200), 104);
    assert_eq!(ChannelMemory::pa_off(1, 2), 3);
    assert_eq!(ChannelMemory::bits_per_ch(true), 270);
    assert_eq!(ChannelMemory::bits_per_ch(false), 272);
}

#[test]
fn new_channel_is_unsynchronised() {
    let c = ChannelMemory::new();
    assert_eq!(c.get_offset(), None);
    assert_eq!(c.get_bl().ones(), 0);
    assert_eq!(c.get_page(0, true), None);
    assert_eq!(c.get_page_pa(0, false), None);
    let mut c2 = c;
    assert_eq!(c2.set_page(0, true, &vec![false; 270]), Err(()));
    let bl = Bootloop::new();
    assert_eq!(c.save(&bl), Err(()));
}

#[test]
fn page_write_read_roundtrip() {
    let mut c = default_channel(Channel::ChannelA);
    assert_eq!(c.get_offset(), Some(0));
    for (la, ec) in [(0u16, true), (5, true), (2047, false), (1000, false)] {
        let n = ChannelMemory::bits_per_ch(ec);
        let page = bits_from_seed(n, la as u32 + 1);
        assert_eq!(c.set_page(la, ec, &page), Ok(()));
        assert_eq!(c.get_page(la, ec), Some(page));
    }
}

#[test]
fn page_write_leaves_other_pages() {
    let mut c = default_channel(Channel::ChannelB);
    let p1 = bits_from_seed(270, 11);
    let p2 = bits_from_seed(270, 12);
    assert_eq!(c.set_page(10, true, &p1), Ok(()));
    assert_eq!(c.set_page(11, true, &p2), Ok(()));
    assert_eq!(c.get_page(10, true), Some(p1));
    assert_eq!(c.get_page(11, true), Some(p2));
    assert_eq!(c.get_page(12, true), Some(vec![false; 270]));
}

#[test]
fn page_of_wrong_length_is_refused() {
    let mut c = default_channel(Channel::ChannelA);
    assert_eq!(c.set_page(3, true, &vec![true; 272]), Err(()));
    assert_eq!(c.get_page(3, true), Some(vec![false; 270]));
}

#[test]
fn masked_bootloop_keeps_first_good_loops() {
    let c = default_channel(Channel::ChannelA);
    assert_eq!(c.get_masked_bl(true).ones(), 135);
    assert_eq!(c.get_masked_bl(false).ones(), 136);
    let mut few = ChannelBootloop::new();
    assert!(few.set_from_string(&format!("{}{}", "f".repeat(10), "0".repeat(30))));
    let mut c2 = ChannelMemory::new();
    c2.set_bl(&few);
    assert_eq!(c2.get_masked_bl(true).ones(), 40);
    assert_eq!(c2.get_page(0, true), None);
    assert_eq!(c2.set_page(0, true, &vec![true; 270]), Err(()));
}

#[test]
fn physical_page_write_read_roundtrip() {
    let mut c = default_channel(Channel::ChannelA);
    let page = bits_from_seed(160, 99);
    assert_eq!(c.set_page_pa(123, false, &page), Ok(()));
    assert_eq!(c.get_page_pa(123, false), Some(page.clone()));
    let good = c.get_page_pa(123, true).unwrap();
    assert_eq!(good.len(), 138);
    let short = bits_from_seed(137, 5);
    assert_eq!(c.set_page_pa(200, true, &short), Err(()));
    let enough = bits_from_seed(138, 5);
    assert_eq!(c.set_page_pa(200, true, &enough), Ok(()));
    assert_eq!(c.get_page_pa(200, true), Some(enough));
}

#[test]
fn channel_save_load_roundtrip() {
    let mut a = default_channel(Channel::ChannelA);
    let b = default_channel(Channel::ChannelB);
    let page = bits_from_seed(270, 3);
    assert_eq!(a.set_page(77, true, &page), Ok(()));
    let mut bl = Bootloop::new();
    bl.set_from_channel(Channel::ChannelA, a.get_bl());
    bl.set_from_channel(Channel::ChannelB, b.get_bl());
    let bytes = a.save(&bl).unwrap();
    assert_eq!(bytes.len(), 82432);
    let mut back = ChannelMemory::new();
    assert_eq!(back.load(&bytes, Channel::ChannelA), Ok(()));
    assert_eq!(back.get_offset(), Some(0));
    assert_eq!(back.get_bl().to_string(), a.get_bl().to_string());
    assert_eq!(back.get_page(77, true), Some(page));
    assert_eq!(back.save(&bl).unwrap(), bytes);
}

#[test]
fn channel_load_needs_whole_channel() {
    let mut c = ChannelMemory::new();
    assert_eq!(c.load(&vec![0u8; 82431], Channel::ChannelA), Err(()));
    assert_eq!(c.load(&vec![0u8; 82432], Channel::ChannelA), Ok(()));
    assert_eq!(c.get_offset(), None);
}

#[test]
fn clear_data_keeps_bootloop() {
    let mut c = default_channel(Channel::ChannelA);
    let page = bits_from_seed(270, 8);
    assert_eq!(c.set_page(9, true, &page), Ok(()));
    c.clear_data();
    assert_eq!(c.get_bl().ones(), 138);
    assert_eq!(c.get_offset(), Some(0));
    assert_eq!(c.get_page(9, true), Some(vec![false; 270]));
}

#[test]
fn physical_write_skipping_bad_loops_clears_them() {
    let mut c = default_channel(Channel::ChannelA);
    let ones = vec![true; 138];
    assert_eq!(c.set_page_pa(200, true, &ones), Ok(()));
    let all = c.get_page_pa(200, false).unwrap();
    assert_eq!(all.len(), 160);
    let bl = c.get_bl().get_as_arru8();
    for i in 0..160 {
        let good = (bl[i / 8] >> (7 - i % 8)) & 1 == 1;
        assert_eq!(all[i], good);
    }
}

#[test]
fn logical_addresses_wrap_every_2048_pages() {
    let mut c = default_channel(Channel::ChannelB);
    let page = bits_from_seed(270, 8);
    assert_eq!(c.set_page(77, true, &page), Ok(()));
    assert_eq!(c.get_page(77 + 2048, true), Some(page.clone()));
    assert_eq!(ChannelMemory::la_to_pa(77 + 2048), ChannelMemory::la_to_pa(77));
}
