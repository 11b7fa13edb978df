use omemfs::debug::{depth, fmt_elapsed, DebugTimer, Depth, Layer};

#[test]
fn layer_tag_widths_match() {
    assert_eq!(Layer::L1.tag().len(), 7);
    assert_eq!(Layer::L2.tag().len(), 7);
    assert_eq!(Layer::L3.tag().len(), 7);
    assert_eq!(Layer::L4.tag().len(), 7);
    assert_eq!(Layer::L5.tag().len(), 7);
    assert_eq!(Layer::L6.tag().len(), 7);
    assert_eq!(Layer::L7.tag().len(), 7);
}

#[test]
fn layer_idx_unique() {
    let layers = [
        Layer::L1,
        Layer::L2,
        Layer::L3,
        Layer::L4,
        Layer::L5,
        Layer::L6,
        Layer::L7,
    ];
    for i in 0..layers.len() {
        for j in (i + 1)..layers.len() {
            assert_ne!(layers[i].idx(), layers[j].idx());
        }
    }
}

#[test]
fn timers_nest() {
    let mut d = Depth { level: 0 };
    let (outer, first) = DebugTimer::new_with_layer(&mut d, Layer::L1, "outer".to_string());
    assert_eq!(first.depth, 0);
    let (inner, second) = DebugTimer::new_with_layer(&mut d, Layer::L7, "inner".to_string());
    assert_eq!(second.depth, 1);
    assert_eq!(depth(&d), 2);
    assert_eq!(inner.finish(&mut d, "1ms").depth, 1);
    assert_eq!(outer.finish(&mut d, "2ms").depth, 0);
    assert_eq!(depth(&d), 0);
}

#[test]
fn elapsed_times_pick_a_unit() {
    assert_eq!(fmt_elapsed(3, 250_000_000, "3.250"), "3.250s");
    assert_eq!(fmt_elapsed(0, 5_999_999, "0.006"), "5ms");
    assert_eq!(fmt_elapsed(0, 999_999, "0.001"), "999us");
}
