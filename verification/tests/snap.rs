use iced_texture_cache::filter::FilterQuality;
use iced_texture_cache::snap::{page_snap, snap_decision, AxisSnap, PageSnap, PixelSnap};

#[test]
fn snap_policy_truth_table() {
    let filter = FilterQuality::CatmullRom;

    for has_live_scale in [false, true] {
        for translation_only in [false, true] {
            for at_rest in [false, true] {
                assert!(snap_decision(
                    filter,
                    PixelSnap::Always,
                    has_live_scale,
                    translation_only,
                    at_rest
                ));
                assert!(!snap_decision(
                    filter,
                    PixelSnap::Never,
                    has_live_scale,
                    translation_only,
                    at_rest
                ));
                assert!(!snap_decision(
                    filter,
                    PixelSnap::LayoutOnly,
                    has_live_scale,
                    translation_only,
                    at_rest
                ));
                assert_eq!(
                    snap_decision(
                        filter,
                        PixelSnap::Auto,
                        has_live_scale,
                        translation_only,
                        at_rest
                    ),
                    !has_live_scale && translation_only && at_rest
                );
            }
        }
    }
}

#[test]
fn the_snap_tier_overrides_every_pixel_snap_policy() {
    for mode in [
        PixelSnap::Auto,
        PixelSnap::Always,
        PixelSnap::Never,
        PixelSnap::LayoutOnly,
    ] {
        for has_live_scale in [false, true] {
            for translation_only in [false, true] {
                for at_rest in [false, true] {
                    assert!(snap_decision(
                        FilterQuality::Snap,
                        mode,
                        has_live_scale,
                        translation_only,
                        at_rest
                    ));
                }
            }
        }
    }
}

#[test]
fn the_filtering_tiers_leave_the_snap_policy_alone() {
    assert!(!snap_decision(
        FilterQuality::Bilinear,
        PixelSnap::Never,
        false,
        true,
        true
    ));
    assert!(snap_decision(
        FilterQuality::Bilinear,
        PixelSnap::Auto,
        false,
        true,
        true
    ));
}

#[test]
fn the_default_policy_snaps_only_the_layout() {
    assert_eq!(PixelSnap::default(), PixelSnap::LayoutOnly);
}

#[test]
fn pages_snap_by_the_policy_and_the_snap_tier_wins() {
    for mode in [PixelSnap::Auto, PixelSnap::Always, PixelSnap::Never, PixelSnap::LayoutOnly] {
        assert_eq!(
            page_snap(FilterQuality::Snap, mode),
            PageSnap { x: AxisSnap::Whole, y: true }
        );
    }
    let f = FilterQuality::Bilinear;
    assert_eq!(page_snap(f, PixelSnap::Always), PageSnap { x: AxisSnap::Whole, y: true });
    assert_eq!(page_snap(f, PixelSnap::Never), PageSnap { x: AxisSnap::Free, y: false });
    assert_eq!(page_snap(f, PixelSnap::LayoutOnly), PageSnap { x: AxisSnap::Anchored, y: true });
    assert_eq!(page_snap(f, PixelSnap::Auto), PageSnap { x: AxisSnap::Free, y: true });
}
