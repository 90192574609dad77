use media_containers::mkv::pgs::raster::decode_rle;
use media_containers::mkv::pgs::{PgsDecoder, PgsError, PgsLimits};

fn segment(kind: u8, body: &[u8]) -> Vec<u8> {
    let mut p = vec![kind];
    p.extend((body.len() as u16).to_be_bytes());
    p.extend(body);
    p
}
fn pcs(state: u8) -> Vec<u8> {
    segment(
        0x16,
        &[
            0, 16, 0, 8, 0x10, 0, 1, state, 0, 0, 1, 0, 1, 0, 0, 0, 2, 0, 1,
        ],
    )
}
fn parts(state: u8, y: u8) -> Vec<Vec<u8>> {
    vec![
        pcs(state),
        segment(0x17, &[1, 0, 0, 0, 0, 0, 0, 16, 0, 8]),
        segment(0x14, &[0, 0, 1, y, 128, 128, 255]),
        segment(0x15, &[0, 1, 0, 0xc0, 0, 0, 8, 0, 2, 0, 1, 1, 1, 0, 0]),
        segment(0x80, &[]),
    ]
}
#[test]
fn acquisition_is_self_contained_then_normal_reuses_refreshed_resources() {
    for initial in [None, Some(0x80), Some(0x40)] {
        let mut d = PgsDecoder::new(Default::default());
        if let Some(state) = initial {
            d.push_packet(10, &parts(state, 235).concat(), |_| {})
                .unwrap();
        }
        d.push_packet(20, &parts(0x40, 16).concat(), |display| {
            assert_eq!(display.composition_state, 0x40);
            assert_eq!(display.previous_timestamp_ns, initial.map(|_| 10));
            assert_eq!(
                display.image.as_ref().unwrap().rgba,
                vec![0, 0, 0, 255, 0, 0, 0, 255]
            );
        })
        .unwrap();
        d.push_packet(30, &[pcs(0), segment(0x80, &[])].concat(), |display| {
            assert!(display.unchanged);
            assert_eq!(display.previous_timestamp_ns, Some(20));
        })
        .unwrap();
        d.finish().unwrap();
    }
}
#[test]
fn acquisition_never_reuses_stale_palette_object_window_or_composition() {
    for omitted in 1..=3 {
        let mut d = PgsDecoder::new(Default::default());
        d.push_packet(1, &parts(0x80, 235).concat(), |_| {})
            .unwrap();
        let mut refresh = parts(0x40, 235);
        refresh.remove(omitted);
        assert!(
            d.push_packet(2, &refresh.concat(), |_| panic!("stale resource accepted"))
                .is_err()
        );
        assert_eq!(d.finish(), Err(PgsError::Poisoned));
    }
    let mut d = PgsDecoder::new(Default::default());
    d.push_packet(1, &parts(0x80, 235).concat(), |_| {})
        .unwrap();
    let update = segment(0x16, &[0, 16, 0, 8, 0x10, 0, 2, 0x40, 0x80, 0, 0]);
    assert!(
        d.push_packet(2, &[update, segment(0x80, &[])].concat(), |_| panic!())
            .is_err()
    );
}
#[test]
fn acquisition_is_not_epoch_canvas_reset_and_does_not_hide_incomplete_state() {
    let mut d = PgsDecoder::new(Default::default());
    d.push_packet(1, &parts(0x80, 235).concat(), |_| {})
        .unwrap();
    let mut refresh = parts(0x40, 235);
    refresh[0][4] = 32;
    assert_eq!(
        d.push_packet(2, &refresh.concat(), |_| panic!()),
        Err(PgsError::Malformed("canvas changed without epoch"))
    );
    let mut d = PgsDecoder::new(Default::default());
    d.push_packet(1, &pcs(0x80), |_| panic!()).unwrap();
    assert_eq!(
        d.push_packet(2, &parts(0x40, 235).concat(), |_| panic!()),
        Err(PgsError::IncompleteDisplaySet)
    );
    for state in [1, 0x41, 0x7f, 0x81, 0xc0, 0xff] {
        let mut d = PgsDecoder::new(Default::default());
        assert_eq!(
            d.push_packet(1, &pcs(state), |_| panic!()),
            Err(PgsError::UnsupportedCompositionState(state))
        );
    }
}
#[test]
fn acquisition_preserves_cumulative_budgets_and_poisons_malformed_packet_tail() {
    for limits in [
        PgsLimits {
            total_render_pixels: 2,
            ..Default::default()
        },
        PgsLimits {
            packets: 1,
            ..Default::default()
        },
        PgsLimits {
            displays: 1,
            ..Default::default()
        },
        PgsLimits {
            total_packet_bytes: parts(0x80, 235).concat().len(),
            ..Default::default()
        },
    ] {
        let mut d = PgsDecoder::new(limits);
        d.push_packet(1, &parts(0x80, 235).concat(), |_| {})
            .unwrap();
        assert!(matches!(
            d.push_packet(2, &parts(0x40, 235).concat(), |_| panic!()),
            Err(PgsError::BudgetExceeded(_))
        ));
    }
    let mut d = PgsDecoder::new(Default::default());
    let mut packet = parts(0x40, 235).concat();
    packet.push(0x14);
    let mut provisional = 0;
    assert!(d.push_packet(1, &packet, |_| provisional += 1).is_err());
    assert_eq!(provisional, 1);
    assert_eq!(d.finish(), Err(PgsError::Poisoned));
}

#[test]
fn palette_colours_become_rgba() {
    let mut p = parts(0x80, 235);
    p[2] = segment(0x14, &[0, 0, 1, 81, 240, 90, 200]);
    let mut d = PgsDecoder::new(Default::default());
    let mut seen = 0;
    d.push_packet(7, &p.concat(), |display| {
        let image = display.image.as_ref().unwrap();
        assert_eq!(image.rgba, [255, 24, 0, 200, 255, 24, 0, 200]);
        assert_eq!((image.rect.x, image.rect.y), (2, 1));
        assert_eq!((image.rect.width, image.rect.height), (2, 1));
        assert_eq!(display.timestamp_ns, 7);
        assert_eq!((display.canvas_width, display.canvas_height), (16, 8));
        assert!(!display.unchanged);
        seen += 1;
    })
    .unwrap();
    assert_eq!(seen, 1);
    assert_eq!(d.finish(), Ok(()));
}

#[test]
fn runs_fill_every_row() {
    let decode = |data: &[u8], w: u16, h: u16| decode_rle(data, w, h, Vec::new());
    assert_eq!(decode(&[0, 0x83, 7, 0, 0], 3, 1), Ok(vec![7, 7, 7]));
    assert_eq!(decode(&[5, 0, 2, 0, 0, 9, 9, 9, 0, 0], 3, 2), Ok(vec![5, 0, 0, 9, 9, 9]));
    assert_eq!(decode(&[0, 0x41, 0x2C, 0, 0], 300, 1), Ok(vec![0; 300]));
    assert_eq!(decode(&[0, 0xC1, 0x2C, 4, 0, 0], 300, 1), Ok(vec![4; 300]));
    for (data, text) in [
        (&[1u8, 0, 0][..], "RLE short row (implicit padding unsupported)"),
        (&[1, 1, 1, 0, 0], "RLE row overflow/zero run"),
        (&[0, 0x80, 1], "RLE row overflow/zero run"),
        (&[1, 1, 0, 0, 1], "RLE trailing bytes"),
        (&[1, 1], "RLE incomplete raster"),
        (&[0], "truncated segment"),
        (&[0, 0x42], "truncated segment"),
    ] {
        assert_eq!(decode(data, 2, 1), Err(PgsError::Malformed(text)));
    }
}

#[test]
fn refused_packets_name_the_reason() {
    let mut d = PgsDecoder::new(Default::default());
    assert_eq!(
        d.push_packet(1, &[pcs(0x80), segment(0x99, &[])].concat(), |_| panic!()),
        Err(PgsError::UnsupportedSegment(0x99))
    );
    assert_eq!(d.push_packet(2, &[], |_| panic!()), Err(PgsError::Poisoned));
    let mut d = PgsDecoder::new(Default::default());
    d.push_packet(10, &parts(0x80, 235).concat(), |_| {}).unwrap();
    assert_eq!(
        d.push_packet(9, &parts(0x80, 235).concat(), |_| panic!()),
        Err(PgsError::InvalidTimestamp)
    );
    let mut d = PgsDecoder::new(Default::default());
    assert!(matches!(
        d.push_packet(1, &[pcs(0), segment(0x80, &[])].concat(), |_| panic!()),
        Err(PgsError::MissingState(_))
    ));
    let mut d = PgsDecoder::new(Default::default());
    assert_eq!(
        d.push_packet(1, &segment(0x14, &[0, 0]), |_| panic!()),
        Err(PgsError::MissingState("segment before PCS"))
    );
    let mut d = PgsDecoder::new(Default::default());
    d.push_packet(1, &pcs(0x80), |_| panic!()).unwrap();
    assert_eq!(d.finish(), Err(PgsError::IncompleteDisplaySet));
    assert_eq!(d.finish(), Err(PgsError::Poisoned));
}

#[test]
fn displays_end_the_ones_before_them() {
    let mut d = PgsDecoder::new(Default::default());
    let mut times = Vec::new();
    for (t, y) in [(1, 235), (2, 16), (2, 16), (5, 235)] {
        d.push_packet(t, &parts(0x80, y).concat(), |display| {
            times.push((display.previous_timestamp_ns, display.timestamp_ns, display.unchanged));
        })
        .unwrap();
    }
    assert_eq!(times[0], (None, 1, false));
    assert_eq!(times[1], (Some(1), 2, false));
    assert_eq!(times[2], (Some(2), 2, true));
    assert_eq!(times[3], (Some(2), 5, false));
}

#[test]
fn a_refresh_names_what_it_lacks() {
    for state in [0x40, 0x80] {
        for (omitted, what) in [(1, "window"), (2, "palette"), (3, "object")] {
            let mut d = PgsDecoder::new(Default::default());
            d.push_packet(1, &parts(0x80, 235).concat(), |_| {})
                .unwrap();
            let mut refresh = parts(state, 235);
            refresh.remove(omitted);
            assert_eq!(
                d.push_packet(2, &refresh.concat(), |_| panic!()),
                Err(PgsError::MissingState(what))
            );
        }
    }
}

#[test]
fn images_lie_on_the_canvas() {
    let mut set = parts(0x80, 235);
    // The object sticks out of the right edge of the canvas: its first column is shown.
    set[0] = segment(
        0x16,
        &[
            0, 16, 0, 8, 0x10, 0, 1, 0x80, 0, 0, 1, 0, 1, 0, 0, 0, 15, 0, 7,
        ],
    );
    let mut d = PgsDecoder::new(Default::default());
    let mut seen = 0;
    d.push_packet(1, &set.concat(), |display| {
        let image = display.image.as_ref().unwrap();
        assert_eq!((image.rect.x, image.rect.y), (15, 7));
        assert_eq!((image.rect.width, image.rect.height), (1, 1));
        seen += 1;
    })
    .unwrap();
    assert_eq!(seen, 1);
    let mut set = parts(0x80, 235);
    set[1] = segment(0x17, &[1, 0, 0, 1, 0, 0, 0, 16, 0, 8]);
    let mut d = PgsDecoder::new(Default::default());
    assert_eq!(
        d.push_packet(1, &set.concat(), |_| panic!()),
        Err(PgsError::Malformed("window outside canvas"))
    );
}

#[test]
fn collected_displays_are_those_emitted() {
    let mut packet = parts(0x80, 235).concat();
    packet.extend(parts(0x40, 16).concat());
    packet.extend([pcs(0), segment(0x80, &[])].concat());
    let mut d = PgsDecoder::new(Default::default());
    let mut emitted = Vec::new();
    d.push_packet(5, &packet, |x| {
        emitted.push((x.composition_state, x.image.as_ref().unwrap().rgba.clone(), x.unchanged));
    })
    .unwrap();
    let mut d = PgsDecoder::new(Default::default());
    let mut out = Vec::new();
    d.collect_packet(5, &packet, &mut out).unwrap();
    let collected: Vec<(u8, Vec<u8>, bool)> = out
        .iter()
        .map(|x| (x.composition_state, x.image.as_ref().unwrap().rgba.clone(), x.unchanged))
        .collect();
    assert_eq!(collected, emitted);
    let states: Vec<(u8, bool)> = collected.iter().map(|x| (x.0, x.2)).collect();
    assert_eq!(states, [(0x80, false), (0x40, false), (0, true)]);
    assert_eq!(out[2].objects.len(), 1);
    assert_eq!(out[1].image, out[2].image);
    // What comes later goes behind, also if the packet is refused in the end.
    let mut late = parts(0x80, 235).concat();
    late.push(0x14);
    assert!(d.collect_packet(6, &late, &mut out).is_err());
    assert_eq!(out.len(), 4);
    assert_eq!((out[3].timestamp_ns, out[3].previous_timestamp_ns), (6, Some(5)));
    // Nothing more is shown after an error.
    assert_eq!(
        d.collect_packet(7, &packet, &mut out),
        Err(PgsError::Poisoned)
    );
    assert_eq!(d.finish(), Err(PgsError::Poisoned));
    assert_eq!(out.len(), 4);
}

#[test]
fn a_track_ends_between_display_sets() {
    let set = parts(0x80, 235);
    for closed in 0..=set.len() {
        let mut d = PgsDecoder::new(Default::default());
        for (i, part) in set[..closed].iter().enumerate() {
            d.push_packet(i as u64, part, |_| {}).unwrap();
        }
        if closed == 0 || closed == set.len() {
            assert_eq!(d.finish(), Ok(()));
            d.push_packet(9, &parts(0x80, 16).concat(), |_| {}).unwrap();
        } else {
            assert_eq!(d.finish(), Err(PgsError::IncompleteDisplaySet));
            assert_eq!(d.finish(), Err(PgsError::Poisoned));
        }
    }
}

#[test]
fn objects_come_in_any_number_of_parts() {
    let mut whole = Vec::new();
    let mut d = PgsDecoder::new(Default::default());
    d.collect_packet(1, &parts(0x80, 235).concat(), &mut whole)
        .unwrap();
    let mut set = parts(0x80, 235);
    set.splice(
        3..4,
        [
            segment(0x15, &[0, 1, 0, 0x80, 0, 0, 8, 0, 2, 0, 1]),
            segment(0x15, &[0, 1, 0, 0, 1]),
            segment(0x15, &[0, 1, 0, 0]),
            segment(0x15, &[0, 1, 0, 0, 1, 0]),
            segment(0x15, &[0, 1, 0, 0x40, 0]),
        ],
    );
    let mut pieces = Vec::new();
    let mut d = PgsDecoder::new(Default::default());
    for part in &set {
        d.collect_packet(1, part, &mut pieces).unwrap();
    }
    d.finish().unwrap();
    assert_eq!(pieces.len(), 1);
    assert_eq!(pieces[0].image, whole[0].image);
}

#[test]
fn a_composition_without_objects_shows_nothing() {
    let clear = segment(0x16, &[0, 16, 0, 8, 0x10, 0, 2, 0, 0, 0, 0]);
    let mut d = PgsDecoder::new(Default::default());
    let mut out = Vec::new();
    d.collect_packet(1, &parts(0x80, 235).concat(), &mut out)
        .unwrap();
    d.collect_packet(2, &[clear, segment(0x80, &[])].concat(), &mut out)
        .unwrap();
    assert_eq!(out.len(), 2);
    assert!(out[0].image.is_some());
    assert!(out[1].image.is_none());
    assert!(!out[1].unchanged);
}

#[test]
fn an_end_before_its_composition_is_refused() {
    let mut d = PgsDecoder::new(Default::default());
    d.push_packet(5, &pcs(0x80), |_| panic!()).unwrap();
    assert_eq!(
        d.push_packet(4, &segment(0x80, &[]), |_| panic!()),
        Err(PgsError::InvalidTimestamp)
    );
}
