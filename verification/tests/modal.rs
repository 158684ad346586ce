use project_harmonia::modal::{LayerKey, ModalIds};

fn layer(id: u64) -> LayerKey {
    LayerKey { order: 1, id }
}

#[test]
fn top_modal_is_the_last_registered() {
    let mut ids = ModalIds::new();
    assert!(ids.is_empty());
    assert!(ids.register_modal(layer(1)));
    assert!(ids.register_modal(layer(2)));
    assert_eq!(ids.retain_registered(), Some(layer(2)));
    // Next frame: both windows are drawn again; only the top one is top.
    assert!(!ids.register_modal(layer(1)));
    assert!(ids.register_modal(layer(2)));
    assert_eq!(ids.retain_registered(), Some(layer(2)));
}

#[test]
fn closed_modals_are_dropped() {
    let mut ids = ModalIds::new();
    ids.register_modal(layer(1));
    ids.register_modal(layer(2));
    ids.retain_registered();
    // Only the first window is drawn this frame; the second is still on the
    // stack while the frame draws, so the first is not the top yet.
    assert!(!ids.register_modal(layer(1)));
    assert_eq!(ids.retain_registered(), Some(layer(1)));
    assert!(ids.register_modal(layer(1)));
    assert_eq!(ids.retain_registered(), Some(layer(1)));
    // Nothing drawn.
    assert_eq!(ids.retain_registered(), None);
    assert!(ids.is_empty());
}
