use dmi::bitmap::Image;
use dmi::layout::optimal_size;
use dmi::types::{ClipboardState, Dmi, DmiError, State};
use dmi::version::{check_update, compare_versions};
use base64::Engine as _;

fn blank_frame(w: u32, h: u32) -> Image {
    Image { width: w, height: h, pixels: vec![0u8; (4 * w * h) as usize] }
}

fn sample_dmi() -> Dmi {
    let mut st = State::new_blank(b"carp_rift".to_vec(), 32, 32);
    st.frames = vec![blank_frame(32, 32), blank_frame(32, 32), blank_frame(32, 32)];
    st.frame_count = 3;
    st.delays = vec![b"2".to_vec(), b"2".to_vec(), b"2".to_vec()];
    let mut d = Dmi::new(b"anomaly".to_vec(), 32, 32);
    d.states.push(st);
    d
}

#[test]
fn open_and_save() {
    let dmi = sample_dmi();
    let bytes = dmi.save_bytes().unwrap();
    let opened = Dmi::open_bytes(b"anomaly".to_vec(), &bytes).unwrap();
    assert_eq!(opened.name, b"anomaly".to_vec());
    assert_eq!(opened.width, 32);
    assert_eq!(opened.height, 32);
    assert_eq!(opened.states.len(), 1);
    let state = &opened.states[0];
    assert_eq!(state.name, b"carp_rift".to_vec());
    assert_eq!(state.dirs, 1);
    assert_eq!(state.frames.len(), 3);
    assert_eq!(state.frame_count, 3);
    assert_eq!(state.delays, vec![b"2".to_vec(), b"2".to_vec(), b"2".to_vec()]);
    assert_eq!(state.loop_, 0);
    assert!(!state.rewind);
    assert!(!state.movement);
    assert_eq!(state.hotspots.len(), 0);
    assert_eq!(state.frames[0].width, 32);
    assert_eq!(state.frames[0].height, 32);
    let again = opened.save_bytes().unwrap();
    let reopened = Dmi::open_bytes(b"anomaly".to_vec(), &again).unwrap();
    assert_eq!(reopened.states[0].frames[0].pixels, state.frames[0].pixels);
}

#[test]
fn metadata_roundtrip() {
    let dmi = sample_dmi();
    let meta = dmi.get_metadata();
    let mut parsed = Dmi::new(b"x".to_vec(), 32, 32);
    parsed.set_metadata(&meta).unwrap();
    assert_eq!(parsed.width, 32);
    assert_eq!(parsed.states.len(), 1);
    assert_eq!(parsed.states[0].name, b"carp_rift".to_vec());
    assert_eq!(parsed.states[0].frame_count, 3);
}

#[test]
fn delay_reconciliation() {
    let meta = b"# BEGIN DMI\nversion = 4.0\n\twidth = 32\n\theight = 32\nstate = \"a\"\n\tdirs = 1\n\tframes = 5\n\tdelay = 2,3\n# END DMI\n";
    let mut d = Dmi::new(b"t".to_vec(), 32, 32);
    d.set_metadata(meta).unwrap();
    let sheet = {
        let mut base = Dmi::new(b"t".to_vec(), 32, 32);
        base.set_metadata(meta).unwrap();
        for st in base.states.iter_mut() {
            for _ in 0..5 {
                st.frames.push(blank_frame(32, 32));
            }
        }
        base.save_bytes().unwrap()
    };
    let opened = Dmi::open_bytes(b"t".to_vec(), &sheet).unwrap();
    let expect: Vec<Vec<u8>> = vec![b"2".to_vec(), b"3".to_vec(), b"3".to_vec(), b"3".to_vec(), b"3".to_vec()];
    assert_eq!(opened.states[0].delays, expect);

    let meta2 = b"# BEGIN DMI\nversion = 4.0\n\twidth = 32\n\theight = 32\nstate = \"a\"\n\tdirs = 1\n\tframes = 2\n\tdelay = 1,1,1\n# END DMI\n";
    let mut base2 = Dmi::new(b"t".to_vec(), 32, 32);
    base2.set_metadata(meta2).unwrap();
    for st in base2.states.iter_mut() {
        for _ in 0..2 {
            st.frames.push(blank_frame(32, 32));
        }
    }
    let opened2 = Dmi::open_bytes(b"t".to_vec(), &base2.save_bytes().unwrap()).unwrap();
    assert_eq!(opened2.states[0].delays, vec![b"1".to_vec(), b"1".to_vec()]);
}

#[test]
fn layout_determinism() {
    let (c, w, h) = optimal_size(10, 32, 32);
    assert_eq!(c, 4);
    assert_eq!(w, 128);
    assert_eq!(h, 96);
    assert_eq!(optimal_size(0, 32, 32), (0, 32, 32));
}

#[test]
fn version_gate() {
    let meta = b"# BEGIN DMI\nversion = 3.0\n\twidth = 32\n# END DMI\n";
    let mut d = Dmi::new(b"t".to_vec(), 32, 32);
    assert_eq!(d.set_metadata(meta), Err(DmiError::InvalidMetadataVersion));
    let meta2 = b"nonsense";
    assert_eq!(d.set_metadata(meta2), Err(DmiError::MissingMetadataHeader));
    let meta3 = b"# BEGIN DMI\nversion = 4.0\n\tbogus = 1\n# END DMI\n";
    assert_eq!(d.set_metadata(meta3), Err(DmiError::UnknownMetadataKey));
    let meta4 = b"# BEGIN DMI\nversion = 4.0\n\tdirs = 1\n# END DMI\n";
    assert_eq!(d.set_metadata(meta4), Err(DmiError::OutOfOrderStateInfo));
}

#[test]
fn missing_chunk() {
    let img = blank_frame(8, 8);
    let mut st = State::new_blank(b"s".to_vec(), 8, 8);
    st.frames = vec![img];
    let clip = st.into_clipboard().unwrap();
    let plain_png = {
        let payload = &clip.frames[0];
        let comma = payload.iter().position(|&b| b == b',').unwrap();
        base64::engine::general_purpose::STANDARD.decode(&payload[comma + 1..]).unwrap()
    };
    assert_eq!(
        Dmi::open_bytes(b"x".to_vec(), &plain_png).unwrap_err(),
        DmiError::MissingZTXTChunk
    );
}

#[test]
fn clipboard_roundtrip() {
    let mut st = State::new_blank(b"s".to_vec(), 4, 4);
    let mut f = blank_frame(4, 4);
    f.pixels[0] = 255;
    f.pixels[3] = 255;
    let fpixels = f.pixels.clone();
    st.frames = vec![f];
    st.delays = vec![b"1.5".to_vec()];
    let clip = st.into_clipboard().unwrap();
    assert!(clip.frames[0].starts_with(b"data:image/png;base64,"));
    let back = State::from_clipboard(clip, 4, 4).unwrap();
    assert_eq!(back.frame_count, 1);
    assert_eq!(back.frames[0].pixels, fpixels);
    assert_eq!(back.delays, vec![b"1.5".to_vec()]);
}

#[test]
fn staging_byte_codec() {
    let mut f = blank_frame(3, 2);
    f.pixels[5] = 7;
    let bytes = dmi::staging::image_to_bytes(&f);
    assert!(bytes.starts_with(b"3\n2\n"));
    let back = dmi::staging::bytes_to_image(&bytes).unwrap();
    assert_eq!(back.width, 3);
    assert_eq!(back.height, 2);
    assert_eq!(back.pixels, f.pixels);
    assert!(matches!(
        dmi::staging::bytes_to_image(b"3\n2\n"),
        Err(DmiError::MissingData)
    ));
    assert!(matches!(
        dmi::staging::bytes_to_image(b"x\n2\n"),
        Err(DmiError::ParseInt)
    ));
}

#[test]
fn size_mismatch() {
    let meta = b"# BEGIN DMI\nversion = 4.0\n\twidth = 48\n\theight = 48\nstate = \"a\"\n\tdirs = 1\n\tframes = 2\n# END DMI\n";
    let bytes = rebuild_with_meta(b"", meta);
    assert_eq!(
        Dmi::open_bytes(b"t".to_vec(), &bytes).unwrap_err(),
        DmiError::ImageSizeMismatch
    );
}

fn rebuild_with_meta(_orig: &[u8], meta: &[u8]) -> Vec<u8> {
    // a 64x64 sheet claiming 48x48 tiles for two frames cannot fit
    let mut d = Dmi::new(b"t".to_vec(), 32, 32);
    d.set_metadata(meta).unwrap();
    // encode a sheet manually: width 64, height 64 with the 48x48 metadata
    let mut out = Vec::new();
    {
        let mut encoder = png::Encoder::new(&mut out, 64, 64);
        encoder.set_color(png::ColorType::Rgba);
        encoder.set_depth(png::BitDepth::Eight);
        encoder
            .add_ztxt_chunk("Description".to_string(), String::from_utf8_lossy(meta).into_owned())
            .unwrap();
        let mut writer = encoder.write_header().unwrap();
        writer.write_image_data(&vec![0u8; 64 * 64 * 4]).unwrap();
    }
    out
}

#[test]
fn version_compare() {
    assert!(compare_versions(b"1.2.3", b"1.2.3") == 0);
    assert!(compare_versions(b"1.2.3", b"1.3.0") < 0);
    assert!(compare_versions(b"2.0", b"1.9.9") > 0);
    assert!(check_update(b"1.2.3", None));
    assert!(!check_update(b"1.2.3", Some(&b"1.3.0".to_vec())));
    assert!(check_update(b"1.3.0", Some(&b"1.2.9".to_vec())));
}

#[test]
fn serialize_and_deserialize() {
    let dmi = sample_dmi();
    let (ser, plan) = dmi.to_serialized(b"staging".to_vec());
    assert_eq!(ser.name, b"anomaly".to_vec());
    assert_eq!(ser.temp, b"staging".to_vec());
    assert_eq!(ser.states.len(), 1);
    assert_eq!(ser.states[0].name, b"carp_rift".to_vec());
    assert_eq!(ser.states[0].frame_key, b"carp_rift.1".to_vec());
    assert_eq!(plan.len(), 3);
    assert_eq!(plan[0].0, b"carp_rift.1.0.bytes".to_vec());
    let files: Vec<Vec<u8>> = plan.iter().map(|p| p.1.clone()).collect();
    let back = Dmi::from_serialized(ser, &files).unwrap();
    assert_eq!(back.name, dmi.name);
    assert_eq!(back.width, dmi.width);
    assert_eq!(back.height, dmi.height);
    assert_eq!(back.states.len(), dmi.states.len());
    let a = &back.states[0];
    let b = &dmi.states[0];
    assert_eq!(a.name, b.name);
    assert_eq!(a.dirs, b.dirs);
    assert_eq!(a.frames.len(), b.frames.len());
    assert_eq!(a.frame_count, b.frame_count);
    assert_eq!(a.delays, b.delays);
    assert_eq!(a.loop_, b.loop_);
    assert_eq!(a.rewind, b.rewind);
    assert_eq!(a.movement, b.movement);
    assert_eq!(a.hotspots, b.hotspots);
    assert_eq!(a.frames[0].width, b.frames[0].width);
    assert_eq!(a.frames[0].height, b.frames[0].height);
    assert_eq!(a.frames[0].pixels, b.frames[0].pixels);
}

#[test]
fn frame_key_collisions() {
    let used: Vec<Vec<u8>> = vec![b"a.1.0.bytes".to_vec(), b"a.2.0.bytes".to_vec()];
    let mut st = State::new_blank(b"a".to_vec(), 2, 2);
    st.frames = vec![blank_frame(2, 2)];
    let (ser, _plan) = st.to_serialized(&used);
    assert_eq!(ser.frame_key, b"a.3".to_vec());
}

#[test]
fn delay_token_rejection() {
    let meta = b"# BEGIN DMI\nversion = 4.0\n\twidth = 32\n\theight = 32\nstate = \"a\"\n\tdirs = 1\n\tframes = 2\n\tdelay = 1,abc\n# END DMI\n";
    let mut d = Dmi::new(b"t".to_vec(), 32, 32);
    assert_eq!(d.set_metadata(meta), Err(DmiError::ParseFloat));
    let meta2 = b"# BEGIN DMI\nversion = 4.0\n\twidth = 32\n\theight = 32\nstate = \"a\"\n\tdirs = 1\n\tframes = 2\n\tdelay = 1.5,2e3,inf\n# END DMI\n";
    let mut d2 = Dmi::new(b"t".to_vec(), 32, 32);
    assert!(d2.set_metadata(meta2).is_ok());
    assert_eq!(
        d2.states[0].delays,
        vec![b"1.5".to_vec(), b"2e3".to_vec(), b"inf".to_vec()]
    );
}

#[test]
fn save_background_transparent() {
    // ten 2x2 frames pack into a 4-column, 3-row sheet; the two spare
    // cells must stay fully transparent
    let mut d = Dmi::new(b"bg".to_vec(), 2, 2);
    let mut st = State::new_blank(b"s".to_vec(), 2, 2);
    st.frames = (0..10)
        .map(|_| {
            let mut f = blank_frame(2, 2);
            for p in f.pixels.iter_mut() {
                *p = 255;
            }
            f
        })
        .collect();
    st.frame_count = 10;
    d.states.push(st);
    let bytes = d.save_bytes().unwrap();
    let img = image::load_from_memory_with_format(&bytes, image::ImageFormat::Png)
        .unwrap()
        .to_rgba8();
    assert_eq!(img.width(), 8);
    assert_eq!(img.height(), 6);
    assert_eq!(img.get_pixel(0, 0).0, [255, 255, 255, 255]);
    assert_eq!(img.get_pixel(5, 5).0, [0, 0, 0, 0]);
    assert_eq!(img.get_pixel(7, 4).0, [0, 0, 0, 0]);
}

#[test]
fn clipboard_first_error() {
    // the first failing payload decides the error: a comma-less
    // payload yields MissingData even when a later one is bad base64
    let clip = ClipboardState {
        name: b"s".to_vec(),
        dirs: 1,
        frames: vec![b"nocomma".to_vec(), b"data:image/png;base64,!!!".to_vec()],
        delays: Vec::new(),
        loop_: 0,
        rewind: false,
        movement: false,
        hotspots: Vec::new(),
    };
    assert_eq!(State::from_clipboard(clip, 2, 2).unwrap_err(), DmiError::MissingData);
    let clip2 = ClipboardState {
        name: b"s".to_vec(),
        dirs: 1,
        frames: vec![b"data:image/png;base64,!!!".to_vec(), b"nocomma".to_vec()],
        delays: Vec::new(),
        loop_: 0,
        rewind: false,
        movement: false,
        hotspots: Vec::new(),
    };
    assert_eq!(State::from_clipboard(clip2, 2, 2).unwrap_err(), DmiError::DecodeError);
}
