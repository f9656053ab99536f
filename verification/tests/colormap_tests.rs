use zarr_tui::colormap::ColormapType;

#[test]
fn colormap_names() {
    assert_eq!(ColormapType::Viridis.name(), "viridis");
    assert_eq!(ColormapType::Plasma.name(), "plasma");
    assert_eq!(ColormapType::Inferno.name(), "inferno");
    assert_eq!(ColormapType::Magma.name(), "magma");
    assert_eq!(ColormapType::Coolwarm.name(), "coolwarm");
    assert_eq!(ColormapType::Turbo.name(), "turbo");
    assert_eq!(ColormapType::GistNcar.name(), "gist_ncar");
}

#[test]
fn colormap_next_follows_all_and_wraps() {
    assert_eq!(ColormapType::Viridis.next(), ColormapType::Plasma);
    assert_eq!(ColormapType::Turbo.next(), ColormapType::GistNcar);
    assert_eq!(ColormapType::GistNcar.next(), ColormapType::Viridis);
    for i in 0..7 {
        assert_eq!(ColormapType::ALL[i].next(), ColormapType::ALL[(i + 1) % 7]);
    }
}

#[test]
fn colormap_prev_wraps() {
    assert_eq!(ColormapType::Viridis.prev(), ColormapType::GistNcar);
    assert_eq!(ColormapType::Plasma.prev(), ColormapType::Viridis);
    for i in 0..7 {
        assert_eq!(ColormapType::ALL[i].prev(), ColormapType::ALL[(i + 6) % 7]);
    }
}

#[test]
fn colormap_next_then_prev_is_identity() {
    for c in ColormapType::ALL {
        assert_eq!(c.next().prev(), c);
        assert_eq!(c.prev().next(), c);
    }
}

#[test]
fn colormap_next_cycles_through_all() {
    let mut c = ColormapType::Magma;
    let mut seen = Vec::new();
    for _ in 0..7 {
        seen.push(c.name());
        c = c.next();
    }
    assert_eq!(c, ColormapType::Magma);
    seen.sort();
    seen.dedup();
    assert_eq!(seen.len(), 7);
}
