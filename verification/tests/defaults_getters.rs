use bubbledit::bootloop::{Bootloop, Channel, ChannelBootloop};
use bubbledit::channel::ChannelMemory;
use bubbledit::memory::{CurrentAddr, Memory};
use bubbledit::storage_loop::Loop;
use bubbledit::{BL_SIZE, CH_BL_SIZE, IMG_SIZE, LOG_ADDRS, LOG_PAGE_SIZE};

#[test]
fn default_values_are_clear() {
    assert_eq!(Bootloop::default().to_string(), "0".repeat(80));
    assert_eq!(ChannelBootloop::default().ones(), 0);
    let lp = Loop::default();
    assert!((0..4096).all(|i| !lp.get(i)));
    let c = ChannelMemory::default();
    assert_eq!(c.get_offset(), None);
    let m = Memory::default();
    assert!(!m.is_dirty());
    assert_eq!(m.current_addr(), CurrentAddr::Unset);
}

#[test]
fn channel_positions() {
    assert_eq!(Channel::ChannelA.index(), 0);
    assert_eq!(Channel::ChannelB.index(), 1);
}

#[test]
fn sizes() {
    assert_eq!(IMG_SIZE, LOG_PAGE_SIZE * LOG_ADDRS as usize);
    assert_eq!(BL_SIZE, 2 * CH_BL_SIZE);
}

#[test]
fn edited_page_is_tracked() {
    let mut m = Memory::new();
    m.clear();
    m.get_la_page(12, true);
    assert_eq!(m.current_addr(), CurrentAddr::LA(12));
    assert!(m.current_ec());
    m.get_la_page(13, false);
    assert!(!m.current_ec());
    m.get_page_pa(Channel::ChannelB, 40, true);
    assert_eq!(m.current_addr(), CurrentAddr::PA(40));
    assert!(m.current_skip());
    m.data_clear();
    assert_eq!(m.current_addr(), CurrentAddr::Unset);
}

#[test]
fn page_without_error_correction() {
    let mut m = Memory::new();
    m.clear();
    m.get_la_page(20, false);
    assert_eq!(m.code_to_string(Channel::ChannelA), "");
    let text = "5a".repeat(68);
    assert_eq!(m.payload_from_string(&text), Ok(()));
    assert_eq!(m.payload_to_string(), text);
    assert_eq!(m.get_la_page(20, false), (bubbledit::fire::FireResult::OkNoECC, bubbledit::fire::FireResult::OkNoECC));
    assert_eq!(m.payload_to_string(), text);
    assert_eq!(m.apply_correction(Channel::ChannelA), Err(()));
    assert_eq!(m.regen_code(), Ok(()));
}
