use bubbledit::fire::FireResult;
use bubbledit::ui::{
    close_allowed, corr_button_style, counters_text, image_check, log_address_text, ones_text,
    phy_address_text, saving_check, title_text, yes_no_answer, ImageCheck, SaveCheck,
};

#[test]
fn correction_button_styles() {
    assert_eq!(corr_button_style(FireResult::Valid), ("Ok", "code_ok"));
    assert_eq!(corr_button_style(FireResult::Correctable), ("Correctable", "code_corr"));
    assert_eq!(corr_button_style(FireResult::Uncorrectable), ("Uncorrectable", "code_uncorr"));
    assert_eq!(corr_button_style(FireResult::LoadError), ("???", ""));
    assert_eq!(corr_button_style(FireResult::OkNoECC), ("???", ""));
}

#[test]
fn counters_message() {
    assert_eq!(counters_text((4095, 1, 0)), "Ok: 4095\nCorrected: 1\nUncorrectable: 0");
}

#[test]
fn ones_label() {
    assert_eq!(ones_text(5), "  5 1s");
    assert_eq!(ones_text(42), " 42 1s");
    assert_eq!(ones_text(138), "138 1s");
    assert_eq!(ones_text(1234), "1234 1s");
}

#[test]
fn address_labels() {
    assert_eq!(log_address_text(0), "LA 000 PA 000");
    assert_eq!(log_address_text(1), "LA 001 PA 171");
    assert_eq!(log_address_text(0x7ff), format!("LA 7ff PA {:03x}", bubbledit::channel::ChannelMemory::la_to_pa(0x7ff)));
    assert_eq!(phy_address_text(0x171), "LA 001+0 PA 171");
    assert_eq!(phy_address_text(0x173), "LA 001+2 PA 173");
    assert_eq!(phy_address_text(0xfff), format!("LA {:03x}+2 PA fff", bubbledit::channel::ChannelMemory::pa_to_la(0xfff).0));
    assert_eq!(log_address_text(0x1234), format!("LA 1234 PA {:03x}", bubbledit::channel::ChannelMemory::la_to_pa(0x1234)));
}

#[test]
fn window_titles() {
    assert_eq!(title_text(false, false, None), Some(" Unnamed".to_string()));
    assert_eq!(title_text(true, false, Some("x")), Some("*Unnamed".to_string()));
    assert_eq!(title_text(true, true, Some("d.imbm")), Some("<b>*d.imbm</b>".to_string()));
    assert_eq!(title_text(false, true, Some("d.imbm")), Some("<b> d.imbm</b>".to_string()));
    assert_eq!(title_text(false, true, None), None);
}

#[test]
fn unsaved_change_decisions() {
    assert_eq!(saving_check(false, true), SaveCheck::Proceed);
    assert_eq!(saving_check(true, true), SaveCheck::Save);
    assert_eq!(saving_check(true, false), SaveCheck::Ask);
    assert_eq!(image_check(false, true), ImageCheck::Refuse);
    assert_eq!(image_check(true, true), ImageCheck::CheckSaving);
    assert_eq!(image_check(true, false), ImageCheck::Proceed);
    assert_eq!(yes_no_answer(0), Some(true));
    assert_eq!(yes_no_answer(1), Some(false));
    assert_eq!(yes_no_answer(2), None);
    assert!(close_allowed(true, true));
    assert!(close_allowed(false, false));
    assert!(!close_allowed(false, true));
}
