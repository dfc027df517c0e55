use std::sync::atomic::AtomicU8;

use iced_texture_cache::filter;
use iced_texture_cache::filter::{
    effective_filter, filter_quality, set_filter_quality, tag_of_override, DeviceKind,
    FilterQuality, UNSET,
};

#[test]
fn only_snap_rounds_the_geometry() {
    assert!(FilterQuality::Snap.snaps());
    assert!(!FilterQuality::Bilinear.snaps());
    assert!(!FilterQuality::CatmullRom.snaps());
}

#[test]
fn every_tier_survives_the_atomic_round_trip() {
    for quality in [
        FilterQuality::CatmullRom,
        FilterQuality::Bilinear,
        FilterQuality::Snap,
    ] {
        assert_eq!(FilterQuality::from_tag(quality.tag()), Some(quality));
    }

    assert_eq!(FilterQuality::from_tag(UNSET), None);
}

#[test]
fn the_automatic_tier_follows_the_adapter() {
    assert_eq!(filter::auto(DeviceKind::DiscreteGpu), FilterQuality::CatmullRom);
    assert_eq!(filter::auto(DeviceKind::IntegratedGpu), FilterQuality::Bilinear);

    for device_type in [DeviceKind::Cpu, DeviceKind::VirtualGpu, DeviceKind::Other] {
        assert_eq!(filter::auto(device_type), FilterQuality::Snap);
    }
}

#[test]
fn the_default_tier_is_bilinear() {
    assert_eq!(FilterQuality::default(), FilterQuality::Bilinear);
}

#[test]
fn tags_are_distinct_and_unknown_tags_read_as_unset() {
    let tags = [
        FilterQuality::CatmullRom.tag(),
        FilterQuality::Bilinear.tag(),
        FilterQuality::Snap.tag(),
    ];
    assert!(tags.iter().all(|tag| *tag != UNSET));
    assert_ne!(tags[0], tags[1]);
    assert_ne!(tags[1], tags[2]);
    assert_ne!(tags[0], tags[2]);
    for tag in 0..=u8::MAX {
        if !tags.contains(&tag) {
            assert_eq!(FilterQuality::from_tag(tag), None);
        }
    }
}

#[test]
fn an_override_reads_back_until_it_is_cleared() {
    let storage = AtomicU8::new(UNSET);
    assert_eq!(filter_quality(&storage), None);
    set_filter_quality(&storage, Some(FilterQuality::Snap));
    assert_eq!(filter_quality(&storage), Some(FilterQuality::Snap));
    set_filter_quality(&storage, Some(FilterQuality::CatmullRom));
    assert_eq!(filter_quality(&storage), Some(FilterQuality::CatmullRom));
    set_filter_quality(&storage, None);
    assert_eq!(filter_quality(&storage), None);
    assert_eq!(tag_of_override(None), UNSET);
    assert_eq!(tag_of_override(Some(FilterQuality::Bilinear)), FilterQuality::Bilinear.tag());
}

#[test]
fn the_widget_choice_beats_the_override_which_beats_the_device() {
    let auto_tier = FilterQuality::Snap;
    assert_eq!(
        effective_filter(Some(FilterQuality::Bilinear), Some(FilterQuality::CatmullRom), auto_tier),
        FilterQuality::Bilinear
    );
    assert_eq!(
        effective_filter(None, Some(FilterQuality::CatmullRom), auto_tier),
        FilterQuality::CatmullRom
    );
    assert_eq!(effective_filter(None, None, auto_tier), FilterQuality::Snap);
}
