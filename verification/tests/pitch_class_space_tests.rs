#![allow(non_snake_case)]

use music_grammar::pitch_class_space::{PitchClassSpace, A, B, C, D, E};
use music_grammar::pitch_class_space::SpaceLevel::{Chromatic, Diatonic};


#[test]
fn test_chord_equality() {
    let pcs1: PitchClassSpace = "ii_o/vi".parse().unwrap();
    let pcs2: PitchClassSpace = "vii_o/I".parse().unwrap();
    assert_eq!(pcs1, pcs2);

    let pcs1: PitchClassSpace = "I/V".parse().unwrap();
    let pcs2: PitchClassSpace = "V/I".parse().unwrap();
    assert_ne!(pcs1, pcs2);

    let pcs1: PitchClassSpace = "III/vi".parse().unwrap();
    let pcs2: PitchClassSpace = "I/I".parse().unwrap();
    assert_eq!(pcs1, pcs2);

    let pcs1: PitchClassSpace = "iv/vi".parse().unwrap();
    let pcs2: PitchClassSpace = "ii".parse().unwrap();
    assert_eq!(pcs1.to_string(), pcs2.to_string());
    assert_eq!(pcs1, pcs2);

    let pcs1: PitchClassSpace = "VI/vi".parse().unwrap();
    let pcs2: PitchClassSpace = "IV".parse().unwrap();
    assert_eq!(pcs1, pcs2);

    let pcs1: PitchClassSpace = "VII/vi".parse().unwrap();
    let pcs2: PitchClassSpace = "V".parse().unwrap();
    assert_eq!(pcs1, pcs2);
}

#[test]
fn test_parse_pitch_class_space() {
    let pcs: PitchClassSpace = "I/I".parse().unwrap();
    assert_eq!(pcs, PitchClassSpace::c_maj());

    let pcs: PitchClassSpace = "i/i".parse().unwrap();
    assert_eq!(pcs, PitchClassSpace::c_nat_min());

    let pcs: PitchClassSpace = "V/IV".parse().unwrap();
    let mut expected = PitchClassSpace::c_maj();
    expected.rotate_on_level(Chromatic, 5);
    expected.rotate_on_level(Diatonic, 4);
    assert_eq!(pcs, expected);

    let pcs: PitchClassSpace = "ii_o/vi".parse().unwrap();
    let mut expected = PitchClassSpace::c_maj();
    expected.rotate_on_level(Diatonic, 5);
    expected.rotate_on_level(Diatonic, 1);
    assert_eq!(pcs, expected);

    let pcs: PitchClassSpace = "ii/I".parse().unwrap();
    let mut expected = PitchClassSpace::c_nat_min();
    expected.rotate_on_level(Chromatic, 2);

    let pcs: PitchClassSpace = "v/v".parse().unwrap();
    let mut expected = PitchClassSpace::c_harmonic_min();
    expected.rotate_on_level(Chromatic, 7);
    expected.rotate_on_level(Diatonic, 4);
    assert_eq!(pcs, expected);
}

#[test]
fn test_total_distances() {
    let origin = PitchClassSpace::c_maj();

    let mut V_I = origin.clone();
    V_I.rotate_on_level(Diatonic, 4);
    assert_eq!(origin.total_distance(&V_I), 5);

    let mut I_V = origin.clone();
    I_V.rotate_on_level(Chromatic, 7);
    assert_eq!(origin.total_distance(&I_V), 7);

    let mut I_VI = origin.clone();
    I_VI.rotate_on_level(Chromatic, 9);
    assert_eq!(origin.total_distance(&I_VI), 14);

    let mut i_ii = origin.clone();
    i_ii.rotate_on_level(Chromatic, 5);
    i_ii.rotate_on_level(Diatonic, -2);
    assert_eq!(origin.total_distance(&i_ii), 10);

    let mut I_IV = origin.clone();
    I_IV.rotate_on_level(Chromatic, 5);
    assert_eq!(origin.total_distance(&I_IV), 7);

    let mut i_vi = origin.clone();
    i_vi.rotate_on_level(Diatonic, 5);
    assert_eq!(origin.total_distance(&i_vi), 7);

    let mut i_i = origin.clone();
    i_i.rotate_on_level(Diatonic, 5);
    i_i.rotate_on_level(Chromatic, 3);
    assert_eq!(origin.total_distance(&i_i), 7);
}

#[test]
fn test_inter_regional_distance_j() {
    let origin = PitchClassSpace::c_maj();

    // parallel minor: j = 0 for chord distance
    let mut i_i = origin.clone();
    i_i.rotate_on_level(Diatonic, 5); // rotate to A
    i_i.rotate_on_level(Chromatic, 3); // rotate root to C
    println!("i_i:\n{}", i_i.to_string());
    let j_i = origin.chord_distance(&i_i);
    assert_eq!(j_i, 0);

    // relative minor: j = 3 for chord distance
    let mut i_vi = origin.clone();
    i_vi.rotate_on_level(Diatonic, 5);
    let j_i_vi = origin.chord_distance(&i_vi);
    println!("i_vi:\n{}", i_vi.to_string());
    assert_eq!(j_i_vi, 3);

    // E minor
    let mut i_iii = origin.clone();
    i_iii.rotate_on_level(Chromatic, 7);
    i_iii.rotate_on_level(Diatonic, -2);
    let j_iii = origin.chord_distance(&i_iii);
    println!("i_iii:\n{}", i_iii.to_string());
    assert_eq!(j_iii, 3);
}

#[test]
fn test_regional_distance_i() {
    let origin = PitchClassSpace::c_maj();

    let mut IV = origin.clone();
    IV.rotate_on_level(Chromatic, 5);
    let i_IV = origin.regional_distance(&IV);
    assert_eq!(i_IV, 1);

    let mut vii_o = origin.clone();
    vii_o.rotate_on_level(Chromatic, -1);
    let i_vii_o = origin.regional_distance(&vii_o);
    assert_eq!(i_vii_o, 5);

    let mut V = origin.clone();
    V.rotate_on_level(Chromatic, 7);
    let i_V = origin.regional_distance(&V);
    assert_eq!(i_V, 1);

    let mut ii = origin.clone();
    ii.rotate_on_level(Chromatic, 2);
    let i_ii = origin.regional_distance(&ii);
    assert_eq!(i_ii, 2);

    let mut IV_IV = origin.clone();
    IV_IV.rotate_on_level(Chromatic, -2);
    let i_IV_IV = origin.regional_distance(&IV_IV);
    assert_eq!(i_IV_IV, 2);
}

#[test]
fn test_chordal_distance_j_within_region() {
    let origin = PitchClassSpace::c_maj();

    let mut IV = origin.clone();
    IV.rotate_on_level(Diatonic, 4);
    let j_IV = origin.chord_distance(&IV);
    assert_eq!(j_IV, 1);

    let mut vii_o = origin.clone();
    vii_o.rotate_on_level(Diatonic, -1);
    let j_vii_o = origin.chord_distance(&vii_o);
    assert_eq!(j_vii_o, 2);

    let mut iii = origin.clone();
    iii.rotate_on_level(Diatonic, 2);
    let j_iii = origin.chord_distance(&iii);
    assert_eq!(j_iii, 3);

    let mut ii = origin.clone();
    ii.rotate_on_level(Diatonic, 1);
    let j_ii = origin.chord_distance(&ii);
    assert_eq!(j_ii, 2);
}

#[test]
fn test_distinctive_pcs_k() {
    // testing k values
    let origin = PitchClassSpace::c_maj();

    let mut IV = origin.clone();
    IV.rotate_on_level(Diatonic, 4);
    let k_IV = origin.count_new_pcs(&IV);
    assert_eq!(k_IV, 4);

    let mut vii_o = origin.clone();
    vii_o.rotate_on_level(Diatonic, -4);
    vii_o.rotate_on_level(Diatonic, -4);
    let k_vii_o = origin.count_new_pcs(&vii_o);
    assert_eq!(k_vii_o, 6);

    let mut iii = origin.clone();
    iii.rotate_on_level(Diatonic, 2);
    let k_iii = origin.count_new_pcs(&iii);
    assert_eq!(k_iii, 4);
}

#[test]
fn rotate_pcs() {
    /*
    if this is I/C:
    a: 0
    b: 0             7
    c: 0       4     7
    d: 0   2   4 5   7   9   b
    e: 0 1 2 3 4 5 6 7 8 9 a b

    then rotating by 7 on the chromatic level should give us:
    I/V
    a:               7
    b:     2         7
    c:     2         7       b
    d: 0   2   4   6 7   9   b
    e: 0 1 2 3 4 5 6 7 8 9 a b

    and rotating by 4 on the diatonic level should give us:
    V/I
    a:               7
    b:     2         7
    c:     2         7       b
    d: 0   2   4 5   7   9   b
    e: 0 1 2 3 4 5 6 7 8 9 a b
     */

    let space = PitchClassSpace::c_maj();
    let I_V = {
        let mut space = space.clone();
        space.rotate_on_level(Chromatic, 7);
        space
    };
    let I_V2 = {
        let mut space = space.clone();
        space.rotate_on_level(Chromatic, -5);
        space
    };
    assert_eq!(I_V, I_V2);
    let expected_I_V_string = "a:               7         \n\
                                    b:     2         7         \n\
                                    c:     2         7       b \n\
                                    d: 0   2   4   6 7   9   b \n\
                                    e: 0 1 2 3 4 5 6 7 8 9 a b \n";
    assert_eq!(I_V.to_string(), expected_I_V_string);

    let V_I = {
        let mut space = space.clone();
        space.rotate_on_level(Diatonic, 4);
        space
    };
    let V_I2 = {
        let mut space = space.clone();
        space.rotate_on_level(Diatonic, -3);
        space
    };
    assert_eq!(V_I, V_I2);
    let expected_V_I_string = "a:               7         \n\
                                    b:     2         7         \n\
                                    c:     2         7       b \n\
                                    d: 0   2   4 5   7   9   b \n\
                                    e: 0 1 2 3 4 5 6 7 8 9 a b \n";
    assert_eq!(V_I.to_string(), expected_V_I_string);
}

#[test]
fn test_get_steps_on_level() {
    let space = PitchClassSpace::c_maj();
    assert_eq!(space.get_steps_on_level(A), vec![0]);
    assert_eq!(space.get_steps_on_level(B), vec![0, 7]);
    assert_eq!(space.get_steps_on_level(C), vec![0, 4, 7]);
    assert_eq!(space.get_steps_on_level(D), vec![0, 2, 4, 5, 7, 9, 11]);
    assert_eq!(space.get_steps_on_level(E), (0..12).collect::<Vec<_>>());
}

#[test]
fn test_display_pcs() {
    let space = PitchClassSpace::c_maj();
    let expected_string = "a: 0                       \n\
                           b: 0             7         \n\
                           c: 0       4     7         \n\
                           d: 0   2   4 5   7   9   b \n\
                           e: 0 1 2 3 4 5 6 7 8 9 a b \n";
    assert_eq!(space.to_string(), expected_string);

    let space = PitchClassSpace::c_nat_min();
    let expected_string = "a: 0                       \n\
                           b: 0             7         \n\
                           c: 0     3       7         \n\
                           d: 0   2 3   5   7 8   a   \n\
                           e: 0 1 2 3 4 5 6 7 8 9 a b \n";
    assert_eq!(space.to_string(), expected_string);
}

#[test]
fn harmonic_minor_raises_the_leading_tone() {
    assert_eq!(PitchClassSpace::c_harmonic_min().highest_levels, [A, E, D, C, E, D, E, B, D, E, E, D]);
    assert_eq!(PitchClassSpace::c_nat_min().highest_levels, [A, E, D, C, E, D, E, B, D, E, D, E]);
}

#[test]
fn leading_tone_chord_of_a_minor_region_is_harmonic() {
    let pcs: PitchClassSpace = "vii_o/vi".parse().unwrap();
    let mut expected = PitchClassSpace::c_harmonic_min();
    expected.rotate_on_level(Diatonic, 6);
    expected.rotate_on_level(Chromatic, 9);
    assert_eq!(pcs, expected);
    let major: PitchClassSpace = "VII/vi".parse().unwrap();
    assert_ne!(pcs, major);
}
