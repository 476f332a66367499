use bubbledit::converter::{
    convert, display_name, output_names, split_image_chunks, validate_image, ImageSizeError,
};
use bubbledit::memory::Memory;

fn images_from_seed(n: usize, seed: u32) -> Vec<u8> {
    let mut x = seed;
    (0..n * 131072)
        .map(|_| {
            x = x.wrapping_mul(134775813).wrapping_add(1);
            (x >> 24) as u8
        })
        .collect()
}

#[test]
fn image_size_validation() {
    assert_eq!(validate_image(0), Err(ImageSizeError::Empty));
    assert_eq!(validate_image(1), Err(ImageSizeError::NotMultiple));
    assert_eq!(validate_image(131071), Err(ImageSizeError::NotMultiple));
    assert_eq!(validate_image(131072), Ok(1));
    assert_eq!(validate_image(3 * 131072), Ok(3));
    assert_eq!(ImageSizeError::Empty.message(), "Input file is empty");
    assert_eq!(
        ImageSizeError::NotMultiple.message(),
        "Input file size is not a multiple of 128 KiB"
    );
}

#[test]
fn image_chunks() {
    let input = images_from_seed(2, 1);
    let chunks = split_image_chunks(&input);
    assert_eq!(chunks.len(), 2);
    assert_eq!(chunks[0], input[..131072].to_vec());
    assert_eq!(chunks[1], input[131072..].to_vec());
    let mut longer = input.clone();
    longer.extend_from_slice(&[1, 2, 3]);
    assert_eq!(split_image_chunks(&longer).len(), 2);
    assert!(split_image_chunks(&[0u8; 10]).is_empty());
}

#[test]
fn output_file_names() {
    assert_eq!(
        output_names(Some("disk"), 3),
        vec!["disk_0.imbm", "disk_1.imbm", "disk_2.imbm"]
    );
    assert_eq!(output_names(None, 1), vec!["image_0.imbm"]);
    assert!(output_names(Some("x"), 0).is_empty());
    assert_eq!(output_names(Some("a"), 11)[10], "a_10.imbm");
}

#[test]
fn input_display_name() {
    assert_eq!(display_name(Some("disk.img")), "disk.img");
    assert_eq!(display_name(None), "Selected image");
}

#[test]
fn convert_refuses_bad_sizes() {
    assert!(matches!(convert(&[], Some("a")), Err(ImageSizeError::NotMultiple)));
    assert!(matches!(convert(&[0u8; 100], Some("a")), Err(ImageSizeError::NotMultiple)));
}

#[test]
fn converted_files_hold_the_images() {
    let input = images_from_seed(2, 5);
    let files = convert(&input, Some("disk")).unwrap();
    assert_eq!(files.len(), 2);
    assert_eq!(files[0].name, "disk_0.imbm");
    assert_eq!(files[1].name, "disk_1.imbm");
    for (k, f) in files.iter().enumerate() {
        assert_eq!(f.data.len(), 164864);
        let mut m = Memory::new();
        assert_eq!(m.load(&f.data), Ok(()));
        let (out, cnt) = m.data_save().unwrap();
        assert_eq!(cnt, (4096, 0, 0));
        assert_eq!(out, input[k * 131072..(k + 1) * 131072].to_vec());
    }
}
