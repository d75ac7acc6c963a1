use amoeba_rl::sim::effect::{Effect, EffectKind};
use amoeba_rl::sim::grid::Coord;

#[test]
fn a_local_effect_says_so() {
    let here = Coord::new(3, 4);
    assert!(Effect::at(EffectKind::Engulf, here).is_local());
    assert!(
        !Effect::new(EffectKind::Shot, here, Coord::new(3, 9)).is_local(),
        "two cells apart is not local"
    );
}

#[test]
fn the_cells_survive_construction() {
    let effect = Effect::new(EffectKind::Absorb, Coord::new(1, 2), Coord::new(3, 4));
    assert_eq!(effect.from, Coord::new(1, 2));
    assert_eq!(effect.to, Coord::new(3, 4));
    assert_eq!(effect.kind, EffectKind::Absorb);
    assert!(effect.in_sight, "an effect is visible unless it is not");
    assert!(!effect.unseen().in_sight);
}

#[test]
fn unseen_keeps_everything_but_sight() {
    let effect = Effect::new(EffectKind::Flow, Coord::new(5, 5), Coord::new(5, 6));
    let hidden = effect.unseen();
    assert_eq!(hidden.from, effect.from);
    assert_eq!(hidden.to, effect.to);
    assert_eq!(hidden.kind, effect.kind);
    assert!(!hidden.is_local());
}
