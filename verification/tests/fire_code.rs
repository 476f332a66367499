use bubbledit::fire::{FireCode, FireResult};

fn payload_from_seed(n: usize, seed: u32) -> Vec<bool> {
    let mut x = seed;
    (0..n)
        .map(|_| {
            x = x.wrapping_mul(22695477).wrapping_add(1);
            (x >> 30) & 1 == 1
        })
        .collect()
}

fn code_value(page: &[bool]) -> u16 {
    page[256..270].iter().fold(0u16, |acc, b| (acc << 1) | (*b as u16))
}

#[test]
fn encoder_step_values() {
    assert_eq!(FireCode::fire_code_enc(0, false), 0);
    assert_eq!(FireCode::fire_code_enc(0, true), 0xa25);
    assert_eq!(FireCode::fire_code_enc(0x2000, false), 0xa25);
    assert_eq!(FireCode::fire_code_enc(0x2000, true), 0);
    assert_eq!(FireCode::fire_code_enc(1, false), 2);
    assert_eq!(FireCode::fire_code_enc(0x3fff, false), (0x3ffe ^ 0xa25) & 0x3fff);
}

#[test]
fn new_fire_code_has_nothing() {
    let f = FireCode::new();
    assert_eq!(f.get_state(), FireResult::LoadError);
    assert!(f.get_page().is_empty());
    let pc = f.get_payload_n_code();
    assert!(pc.payload.is_empty());
    assert_eq!(pc.code, 0);
}

#[test]
fn coded_payload_is_valid() {
    let mut page = payload_from_seed(256, 1);
    let payload = page.clone();
    FireCode::add_code_to_payload(&mut page);
    assert_eq!(page.len(), 270);
    let mut f = FireCode::new();
    assert_eq!(f.set_page(true, &page), FireResult::Valid);
    let pc = f.get_payload_n_code();
    assert_eq!(pc.payload, payload);
    assert_eq!(pc.code, code_value(&page));
    assert_eq!(f.get_page(), &page[..]);
}

#[test]
fn zero_payload_has_zero_code() {
    let mut page = vec![false; 256];
    FireCode::add_code_to_payload(&mut page);
    assert_eq!(page, vec![false; 270]);
}

#[test]
fn single_error_is_corrected() {
    let mut page = payload_from_seed(256, 2);
    FireCode::add_code_to_payload(&mut page);
    for pos in [0usize, 100, 255, 260, 269] {
        let mut bad = page.clone();
        bad[pos] = !bad[pos];
        let mut f = FireCode::new();
        assert_eq!(f.set_page(true, &bad), FireResult::Correctable, "error at {}", pos);
        assert_eq!(f.apply_correction(), FireResult::Valid);
        assert_eq!(f.get_page(), &page[..]);
        assert_eq!(f.get_state(), FireResult::Valid);
    }
}

#[test]
fn short_burst_is_corrected() {
    let mut page = payload_from_seed(256, 3);
    FireCode::add_code_to_payload(&mut page);
    let mut bad = page.clone();
    for pos in 40..44 {
        bad[pos] = !bad[pos];
    }
    let mut f = FireCode::new();
    assert_eq!(f.set_page(true, &bad), FireResult::Correctable);
    f.apply_correction();
    assert_eq!(f.get_page(), &page[..]);
}

#[test]
fn scattered_errors_are_not_corrected_silently() {
    let mut page = payload_from_seed(256, 4);
    FireCode::add_code_to_payload(&mut page);
    let mut bad = page.clone();
    bad[3] = !bad[3];
    bad[150] = !bad[150];
    let mut f = FireCode::new();
    let r = f.set_page(true, &bad);
    assert_ne!(r, FireResult::Valid);
    assert_ne!(r, FireResult::LoadError);
    if r == FireResult::Uncorrectable {
        assert_eq!(f.apply_correction(), FireResult::Uncorrectable);
        assert_eq!(f.get_page(), &bad[..]);
    }
}

#[test]
fn page_of_wrong_length_is_a_load_error() {
    let mut f = FireCode::new();
    assert_eq!(f.set_page(true, &vec![false; 272]), FireResult::LoadError);
    assert_eq!(f.set_page(false, &vec![false; 270]), FireResult::LoadError);
    assert_eq!(f.set_page(false, &vec![true; 272]), FireResult::OkNoECC);
    let pc = f.get_payload_n_code();
    assert_eq!(pc.payload, vec![true; 272]);
    assert_eq!(pc.code, 0);
}

#[test]
fn set_payload_keeps_code_bits() {
    let mut page = payload_from_seed(256, 5);
    FireCode::add_code_to_payload(&mut page);
    let mut f = FireCode::new();
    assert_eq!(f.set_page(true, &page), FireResult::Valid);
    let other = payload_from_seed(256, 6);
    let r = f.set_payload(true, &other);
    assert_ne!(r, FireResult::LoadError);
    assert_ne!(r, FireResult::Valid);
    let pc = f.get_payload_n_code();
    assert_eq!(pc.payload, other);
    assert_eq!(pc.code, code_value(&page));
    assert_eq!(f.set_payload(true, &payload_from_seed(255, 6)), FireResult::LoadError);
}

#[test]
fn regen_code_makes_page_valid() {
    let mut page = payload_from_seed(256, 7);
    FireCode::add_code_to_payload(&mut page);
    let mut f = FireCode::new();
    f.set_page(true, &page);
    let other = payload_from_seed(256, 8);
    f.set_payload(true, &other);
    assert_eq!(f.regen_code(), FireResult::Valid);
    let pc = f.get_payload_n_code();
    assert_eq!(pc.payload, other);
    let mut expected = other.clone();
    FireCode::add_code_to_payload(&mut expected);
    assert_eq!(f.get_page(), &expected[..]);
}

#[test]
fn set_fire_replaces_code() {
    let mut page = payload_from_seed(256, 9);
    FireCode::add_code_to_payload(&mut page);
    let code = code_value(&page);
    let mut f = FireCode::new();
    f.set_page(true, &page);
    assert_ne!(f.set_fire(code ^ 1), FireResult::Valid);
    assert_eq!(f.get_payload_n_code().code, code ^ 1);
    assert_eq!(f.set_fire(code), FireResult::Valid);
    assert_eq!(f.get_payload_n_code().code, code);
    assert_eq!(f.set_fire(0xc000 | code), FireResult::Valid);
    assert_eq!(f.get_payload_n_code().code, code);
}

#[test]
fn set_fire_without_code_does_nothing() {
    let mut f = FireCode::new();
    assert_eq!(f.set_fire(0x123), FireResult::LoadError);
    f.set_page(false, &vec![false; 272]);
    assert_eq!(f.set_fire(0x123), FireResult::OkNoECC);
    assert_eq!(f.regen_code(), FireResult::OkNoECC);
}

#[test]
fn every_short_burst_is_corrected() {
    let zero = vec![false; 270];
    let mut count = 0;
    for len in 1..=5usize {
        let inner_patterns = if len >= 2 { 1usize << (len - 2) } else { 1 };
        for inner in 0..inner_patterns {
            for pos in 0..=(270 - len) {
                let mut e = zero.clone();
                e[pos] = true;
                e[pos + len - 1] = true;
                for k in 0..len.saturating_sub(2) {
                    if (inner >> k) & 1 == 1 {
                        e[pos + 1 + k] = true;
                    }
                }
                let mut f = FireCode::new();
                assert_eq!(f.set_page(true, &e), FireResult::Correctable);
                assert_eq!(f.apply_correction(), FireResult::Valid);
                assert_eq!(f.get_page(), &zero[..]);
                count += 1;
            }
        }
    }
    assert_eq!(count, 4271);
}

#[test]
fn burst_correction_on_a_payload() {
    let mut page = payload_from_seed(256, 10);
    FireCode::add_code_to_payload(&mut page);
    for pos in (0..266).step_by(7) {
        let mut bad = page.clone();
        bad[pos] = !bad[pos];
        bad[pos + 4] = !bad[pos + 4];
        bad[pos + 2] = !bad[pos + 2];
        let mut f = FireCode::new();
        assert_eq!(f.set_page(true, &bad), FireResult::Correctable);
        f.apply_correction();
        assert_eq!(f.get_page(), &page[..]);
    }
}

#[test]
fn correction_flips_one_short_run() {
    let mut page = payload_from_seed(256, 21);
    FireCode::add_code_to_payload(&mut page);
    for (i, j) in [(0usize, 40usize), (10, 200), (100, 101), (100, 104), (100, 105), (250, 265), (3, 269)] {
        let mut bad = page.clone();
        bad[i] = !bad[i];
        bad[j] = !bad[j];
        let mut f = FireCode::new();
        let r = f.set_page(true, &bad);
        assert!(r == FireResult::Correctable || r == FireResult::Uncorrectable);
        assert_eq!(f.get_page(), &bad[..]);
        let after = f.apply_correction();
        let changed: Vec<usize> = (0..270).filter(|&k| f.get_page()[k] != bad[k]).collect();
        if r == FireResult::Uncorrectable {
            assert_eq!(after, FireResult::Uncorrectable);
            assert!(changed.is_empty());
        } else {
            assert!(!changed.is_empty());
            assert!(changed[changed.len() - 1] - changed[0] <= 4);
        }
    }
}
