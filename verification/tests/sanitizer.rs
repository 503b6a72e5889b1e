//! Keystroke-filter tests: the mangled fixtures survive filtering, and the
//! filter is idempotent.

use dice_lib::parse_and_discard;
use dice_lib::get_valid_dice;

#[test]
fn test_parse() {
    let regular = ("10d20").to_string();
    let regular_plus = ("1d4+2").to_string();
    let multiple = ("1d4,2d8").to_string();
    let multiple_plus = ("1d3+2,2d8+3").to_string();

    let regular_mangled = ("a1a0ada2a0a").to_string();
    let regular_plus_mangled = ("a1ada4a+a2a").to_string();
    let multiple_mangled = ("a1ada4a,a2ada8a").to_string();
    let multiple_plus_mangled = ("a1ada3a+a2a,a2ada8a+a3a").to_string();

    assert_eq!(parse_and_discard(regular.clone()), regular);
    assert_eq!(parse_and_discard(regular_plus.clone()), regular_plus);
    assert_eq!(parse_and_discard(multiple.clone()), multiple);
    assert_eq!(parse_and_discard(multiple_plus.clone()), multiple_plus);

    assert_eq!(parse_and_discard(regular_mangled.clone()), regular);
    assert_eq!(parse_and_discard(regular_plus_mangled.clone()), regular_plus);
    assert_eq!(parse_and_discard(multiple_mangled.clone()), multiple);
    assert_eq!(parse_and_discard(multiple_plus_mangled.clone()), multiple_plus);
}

#[test]
fn test_sanitize_drops_invalid_prefix_material() {
    // A separator or operator may only follow the grammar position that
    // allows it; everything else is dropped without advancing the state.
    assert_eq!(parse_and_discard(",1d6".to_string()), "1d6");
    assert_eq!(parse_and_discard("d6".to_string()), "6");
    assert_eq!(parse_and_discard("1+d6".to_string()), "1d6");
    assert_eq!(parse_and_discard("2d6,,3d4".to_string()), "2d6,3d4");
    assert_eq!(parse_and_discard("".to_string()), "");
    assert_eq!(parse_and_discard("xyz".to_string()), "");
}

#[test]
fn test_sanitize_idempotent() {
    let inputs = [
        "a1a0ada2a0a",
        "1d20",
        "zz,++1d4+2,,2d8+3d",
        "d20,5",
        "",
        "99x99dd99",
    ];
    for input in inputs {
        let once = parse_and_discard(input.to_string());
        let twice = parse_and_discard(once.clone());
        assert_eq!(twice, once);
    }
}

#[test]
fn test_get_valid_dice() {
    assert_eq!(get_valid_dice("a1da2x0,".to_string()), "1d20,");
    // a `d` needs digits before it, and a comma needs a `d` before it
    assert_eq!(get_valid_dice("d5".to_string()), "5");
    assert_eq!(get_valid_dice(",,3".to_string()), "3");
    // only one `d` per term until a comma resets the term
    assert_eq!(get_valid_dice("1d2d3,4d5d6".to_string()), "1d23,4d56");
    assert_eq!(get_valid_dice("".to_string()), "");
}
