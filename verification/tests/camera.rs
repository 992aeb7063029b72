use zygote_core::camera::{chosen_device, compose, depth8, synthetic_size, DepthPlane, Frame, Output};

/// A 2×2 frame whose red channel numbers the pixels, with a 1×1 depth plane.
fn frame(depth: Option<DepthPlane>) -> Frame {
    let mut rgba = Vec::new();
    for p in 0..4u8 {
        rgba.extend_from_slice(&[p, 10 + p, 20 + p, 99]);
    }
    Frame { width: 2, height: 2, rgba, depth }
}

fn plane(v: u16, range: u16) -> DepthPlane {
    DepthPlane { width: 1, height: 1, data: vec![v], range }
}

#[test]
fn colour_output_copies_rgb_and_is_opaque() {
    let (w, h, px) = compose(&frame(None), Output::Colour, false);
    assert_eq!((w, h), (2, 2));
    assert_eq!(px, vec![0, 10, 20, 255, 1, 11, 21, 255, 2, 12, 22, 255, 3, 13, 23, 255]);
}

#[test]
fn mirror_swaps_columns_within_each_row() {
    let (_, _, px) = compose(&frame(None), Output::Colour, true);
    assert_eq!(px, vec![1, 11, 21, 255, 0, 10, 20, 255, 3, 13, 23, 255, 2, 12, 22, 255]);
}

#[test]
fn depth_is_scaled_to_the_range() {
    let f = frame(Some(plane(1500, 3000)));
    assert_eq!(depth8(&f, 1, 1), 127);
    let (_, _, px) = compose(&f, Output::Depth, false);
    assert_eq!(&px[0..4], &[127, 127, 127, 255]);
    assert_eq!(depth8(&frame(Some(plane(5000, 3000))), 0, 0), 255);
    assert_eq!(depth8(&frame(Some(plane(0, 3000))), 0, 0), 0);
    assert_eq!(depth8(&frame(Some(plane(7, 0))), 0, 0), 0);
}

#[test]
fn depth_as_alpha_and_its_fallback() {
    let (_, _, px) = compose(&frame(Some(plane(3000, 3000))), Output::ColourDepthAlpha, false);
    assert_eq!(&px[4..8], &[1, 11, 21, 255]);
    let (_, _, px) = compose(&frame(Some(plane(600, 3000))), Output::ColourDepthAlpha, false);
    assert_eq!(&px[4..8], &[1, 11, 21, 51]);
    assert_eq!(depth8(&frame(None), 1, 0), 255);
}

#[test]
fn empty_frame_composes_to_nothing() {
    let f = Frame { width: 0, height: 3, rgba: vec![], depth: None };
    assert_eq!(compose(&f, Output::Depth, true), (0, 3, vec![]));
}

#[test]
fn synthetic_devices_name_their_size() {
    assert_eq!(synthetic_size("synthetic:320x200"), (320, 200));
    assert_eq!(synthetic_size("synthetic"), (640, 360));
    assert_eq!(synthetic_size("synthetic:320"), (640, 360));
    assert_eq!(synthetic_size("synthetic:axb"), (640, 360));
    assert_eq!(synthetic_size("test"), (640, 360));
}

#[test]
fn a_non_empty_override_replaces_the_device() {
    assert_eq!(chosen_device("0", Some("synthetic")), "synthetic");
    assert_eq!(chosen_device("0", Some("")), "0");
    assert_eq!(chosen_device("0", None), "0");
}
