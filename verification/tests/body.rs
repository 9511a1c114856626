use kynex::body::Mobility;

#[test]
fn dynamic_body_with_mass_is_integrated_in_both_phases() {
    let m = Mobility { is_static: false, infinite_mass: false };
    assert!(m.integrates_forces());
    assert!(m.integrates_position());
}

#[test]
fn dynamic_body_of_infinite_mass_takes_no_forces_but_moves() {
    let m = Mobility { is_static: false, infinite_mass: true };
    assert!(!m.integrates_forces());
    assert!(m.integrates_position());
}

#[test]
fn static_body_is_integrated_in_neither_phase() {
    let m = Mobility { is_static: true, infinite_mass: true };
    assert!(!m.integrates_forces());
    assert!(!m.integrates_position());
}

#[test]
fn static_flag_wins_over_a_mass_set_afterwards() {
    let m = Mobility { is_static: true, infinite_mass: false };
    assert!(!m.integrates_forces());
    assert!(!m.integrates_position());
}
