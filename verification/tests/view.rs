use amoeba_rl::sim::actors::IntentKind;
use amoeba_rl::sim::grid::Coord;
use amoeba_rl::sim::view::{CellView, Described, ExamineView, Telegraph};

#[test]
fn view_values_compare_by_their_fields() {
    let a = CellView { glyph: '@', fg: [1, 2, 3], bg: [0, 0, 0] };
    assert_eq!(a, a.clone());
    let t = Telegraph { from: Coord::new(1, 1), to: Coord::new(1, 2), kind: IntentKind::Step };
    assert_eq!(t.to, Coord::new(1, 2));
    let e = ExamineView {
        pos: Coord::new(4, 4),
        target: Some(Described {
            name: "Maw".to_string(),
            description: String::new(),
            detail: vec![],
            color: [9, 9, 9],
        }),
    };
    assert_eq!(e.target.as_ref().map(|d| d.name.as_str()), Some("Maw"));
}
