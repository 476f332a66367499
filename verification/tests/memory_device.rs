use bubbledit::bootloop::{Bootloop, Channel, ChannelBootloop};
use bubbledit::fire::FireResult;
use bubbledit::memory::Memory;

fn image_from_seed(seed: u32) -> Vec<u8> {
    let mut x = seed;
    (0..131072)
        .map(|_| {
            x = x.wrapping_mul(1103515245).wrapping_add(12345);
            (x >> 16) as u8
        })
        .collect()
}

fn cleared_memory() -> Memory {
    let mut m = Memory::new();
    m.clear();
    m
}

#[test]
fn new_memory_state() {
    let mut m = Memory::new();
    assert!(!m.is_dirty());
    assert!(!m.is_bl_valid());
    assert_eq!(m.get_ch(Channel::ChannelA).get_offset(), None);
    assert_eq!(m.get_payload(), Vec::<u8>::new());
    assert_eq!(m.payload_to_string(), "");
    assert_eq!(m.code_to_string(Channel::ChannelA), "");
    assert_eq!(m.save(), Err(()));
    assert_eq!(m.data_save(), Err(()));
    assert_eq!(m.data_fix(false), None);
}

#[test]
fn cleared_memory_has_factory_bootloops() {
    let m = cleared_memory();
    assert!(m.is_bl_valid());
    assert!(!m.is_dirty());
    assert_eq!(m.get_ch(Channel::ChannelA).get_bl().to_string(), "dfdf7f5bffd7ebffcfffff9ff3faffbcf7ffffff");
    assert_eq!(m.get_ch(Channel::ChannelB).get_bl().to_string(), "755dff77dfff75dfffdfff7f7f5fb7f3ffffffff");
    assert_eq!(m.get_ch(Channel::ChannelB).get_offset(), Some(0));
}

#[test]
fn image_import_export_roundtrip() {
    let img = image_from_seed(42);
    let mut m = cleared_memory();
    assert_eq!(m.data_load(&img), Ok(()));
    assert!(m.is_dirty());
    let (out, cnt) = m.data_save().unwrap();
    assert_eq!(cnt, (4096, 0, 0));
    assert_eq!(out, img);
}

#[test]
fn image_import_needs_whole_image() {
    let mut m = cleared_memory();
    assert_eq!(m.data_load(&vec![0u8; 131071]), Err(()));
    assert!(!m.is_dirty());
}

#[test]
fn device_save_load_roundtrip() {
    let img = image_from_seed(7);
    let mut m = cleared_memory();
    m.data_load(&img).unwrap();
    let bytes = m.save().unwrap();
    assert_eq!(bytes.len(), 164864);
    assert!(m.is_dirty());
    m.mark_saved();
    assert!(!m.is_dirty());
    let mut back = Memory::new();
    assert_eq!(back.load(&bytes), Ok(()));
    assert!(!back.is_dirty());
    assert_eq!(back.save().unwrap(), bytes);
    let (out, cnt) = back.data_save().unwrap();
    assert_eq!(cnt, (4096, 0, 0));
    assert_eq!(out, img);
}

#[test]
fn device_load_needs_both_channels() {
    let mut m = cleared_memory();
    assert_eq!(m.load(&vec![0u8; 164863]), Err(()));
    assert!(m.is_bl_valid());
    assert_eq!(m.load(&vec![0u8; 164864]), Ok(()));
    assert!(!m.is_bl_valid());
    assert_eq!(m.get_ch(Channel::ChannelA).get_offset(), None);
}

#[test]
fn logical_page_edit_roundtrip() {
    let img = image_from_seed(3);
    let mut m = cleared_memory();
    m.data_load(&img).unwrap();
    let (ra, rb) = m.get_la_page(5, true);
    assert_eq!((ra, rb), (FireResult::Valid, FireResult::Valid));
    assert_eq!(m.get_payload(), img[5 * 64..6 * 64].to_vec());
    let text = m.payload_to_string();
    assert_eq!(text.len(), 128);
    let new_payload: Vec<u8> = (0..64u8).collect();
    let new_text: String = new_payload.iter().map(|b| format!("{:02x}", b)).collect();
    assert_eq!(m.payload_from_string(&new_text), Ok(()));
    assert_eq!(m.get_payload(), new_payload);
    assert_eq!(m.regen_code(), Ok(()));
    assert_eq!(m.get_la_page(5, true), (FireResult::Valid, FireResult::Valid));
    assert_eq!(m.get_payload(), new_payload);
    let (out, cnt) = m.data_save().unwrap();
    assert_eq!(cnt, (4096, 0, 0));
    assert_eq!(&out[5 * 64..6 * 64], &new_payload[..]);
    assert_eq!(&out[..5 * 64], &img[..5 * 64]);
}

#[test]
fn payload_text_of_wrong_length_is_refused() {
    let mut m = cleared_memory();
    m.get_la_page(0, true);
    assert_eq!(m.payload_from_string("00"), Err(()));
    assert_eq!(m.payload_from_string(&"zz".repeat(64)), Err(()));
    assert!(!m.is_dirty());
}

#[test]
fn payload_ascii_view() {
    let mut img = vec![0u8; 131072];
    img[0] = b'H';
    img[1] = b'i';
    img[2] = 0x7f;
    img[3] = b' ';
    let mut m = cleared_memory();
    m.data_load(&img).unwrap();
    m.get_la_page(0, true);
    let s = m.payload_to_ascii();
    assert_eq!(s.chars().count(), 64);
    assert!(s.starts_with("Hi\u{2022} \u{2022}"));
}

#[test]
fn code_edit_and_correction() {
    let img = image_from_seed(9);
    let mut m = cleared_memory();
    m.data_load(&img).unwrap();
    m.get_la_page(100, true);
    let code = m.code_to_string(Channel::ChannelA);
    assert_eq!(code.len(), 4);
    let value = u16::from_str_radix(&code, 16).unwrap();
    let flipped = format!("{:04x}", value ^ 0x0001);
    assert_eq!(m.code_from_string(Channel::ChannelA, &flipped), Ok(()));
    assert_eq!(m.get_la_page(100, true), (FireResult::Correctable, FireResult::Valid));
    assert_eq!(m.data_fix(false), Some((4095, 1, 0)));
    assert_eq!(m.apply_correction(Channel::ChannelA), Err(()));
    m.get_la_page(100, true);
    assert_eq!(m.apply_correction(Channel::ChannelA), Ok(()));
    assert_eq!(m.get_la_page(100, true), (FireResult::Valid, FireResult::Valid));
    assert_eq!(m.code_to_string(Channel::ChannelA), code);
    assert_eq!(m.code_from_string(Channel::ChannelB, "xyz"), Err(()));
}

#[test]
fn image_fix_corrects_pages() {
    let img = image_from_seed(11);
    let mut m = cleared_memory();
    m.data_load(&img).unwrap();
    m.get_la_page(7, true);
    let code = m.code_to_string(Channel::ChannelB);
    let value = u16::from_str_radix(&code, 16).unwrap();
    assert_eq!(m.code_from_string(Channel::ChannelB, &format!("{:04x}", value ^ 0x0100)), Ok(()));
    assert_eq!(m.data_fix(false), Some((4095, 1, 0)));
    assert_eq!(m.data_fix(true), Some((4095, 1, 0)));
    assert_eq!(m.data_fix(false), Some((4096, 0, 0)));
    let (out, cnt) = m.data_save().unwrap();
    assert_eq!(cnt, (4096, 0, 0));
    assert_eq!(out, img);
}

#[test]
fn export_corrects_without_writing_back() {
    let img = image_from_seed(12);
    let mut m = cleared_memory();
    m.data_load(&img).unwrap();
    m.get_la_page(300, true);
    let code = m.code_to_string(Channel::ChannelA);
    let value = u16::from_str_radix(&code, 16).unwrap();
    m.code_from_string(Channel::ChannelA, &format!("{:04x}", value ^ 0x0010)).unwrap();
    let (out, cnt) = m.data_save().unwrap();
    assert_eq!(cnt, (4095, 1, 0));
    assert_eq!(out, img);
    assert_eq!(m.data_fix(false), Some((4095, 1, 0)));
}

#[test]
fn data_clear_keeps_bootloops() {
    let img = image_from_seed(13);
    let mut m = cleared_memory();
    m.data_load(&img).unwrap();
    m.data_clear();
    assert!(!m.is_dirty());
    assert!(m.is_bl_valid());
    let (out, cnt) = m.data_save().unwrap();
    assert_eq!(cnt, (4096, 0, 0));
    assert_eq!(out, vec![0u8; 131072]);
}

#[test]
fn set_channel_bootloops() {
    let mut m = cleared_memory();
    let mut bl = Bootloop::new();
    assert!(bl.set_from_string(&"0f".repeat(40)));
    let a = bl.get_channel(Channel::ChannelA);
    m.set_ch_bl(Some(&a), None);
    assert_eq!(m.get_ch(Channel::ChannelA).get_bl().to_string(), a.to_string());
    assert_eq!(m.get_ch(Channel::ChannelB).get_bl().ones(), 138);
    assert!(!m.is_bl_valid());
    let mut r = ChannelBootloop::new();
    r.set_random(139);
    m.set_ch_bl(Some(&r), Some(&r));
    assert!(m.is_bl_valid());
}

#[test]
fn physical_page_edit() {
    let mut m = cleared_memory();
    let s = m.page_pa_to_string(Channel::ChannelA, 10, false);
    assert_eq!(s, "0".repeat(40));
    assert_eq!(m.get_page_pa(Channel::ChannelA, 10, true).len(), 18);
    let text = "ff".repeat(20);
    assert_eq!(m.page_pa_from_string(Channel::ChannelA, &text), Ok(()));
    assert!(m.is_dirty());
    assert_eq!(m.page_pa_to_string(Channel::ChannelA, 10, true), "ff".repeat(17) + "c0");
    assert_eq!(m.page_pa_to_string(Channel::ChannelA, 10, false), "dfdf7f5bffd7ebffcfffff9ff3faffbcf7ffffff");
    assert_eq!(m.page_pa_from_string(Channel::ChannelA, "00"), Err(()));
}

#[test]
fn physical_page_edit_needs_physical_page() {
    let mut m = cleared_memory();
    assert_eq!(m.page_pa_from_string(Channel::ChannelA, "00"), Err(()));
    m.get_la_page(0, true);
    assert_eq!(m.page_pa_from_string(Channel::ChannelA, &"00".repeat(20)), Err(()));
    let mut fresh = Memory::new();
    assert_eq!(fresh.get_page_pa(Channel::ChannelB, 0, false), Vec::<u8>::new());
}
