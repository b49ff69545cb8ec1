//! Score-number behaviour: parsing, rendering, ordering, addition.

use lobby_server::decnum::{DecNum, Ord3};
use lobby_server::talisman_number::{TalismanNumber, WireValue};

#[test]
fn test_regular_numbers() {
    let num = TalismanNumber::Regular(DecNum::Num { mant: 42, exp: 3 });
    assert_eq!(num.to_balatro_notation(3), "42,000");

    let big_num = TalismanNumber::Regular(DecNum::Num { mant: 1, exp: 8 });
    assert_eq!(big_num.to_balatro_notation(3), "1.000e8");
}

#[test]
fn test_big_numbers() {
    let big_num = TalismanNumber::Big {
        m: DecNum::Num { mant: 1234, exp: -3 },
        e: DecNum::Num { mant: 15, exp: 0 },
    };
    assert_eq!(big_num.to_balatro_notation(3), "1.234e15");
}

#[test]
fn test_notation_string_parsing() {
    let result = TalismanNumber::from_notation_string("1.234e56789").unwrap();
    match result {
        TalismanNumber::Big { m, e } => {
            assert_eq!(m, DecNum::Num { mant: 1234, exp: -3 });
            assert_eq!(e, DecNum::Num { mant: 56789, exp: 0 });
        },
        _ => panic!("Expected Big number"),
    }
}

#[test]
fn test_json_parsing() {
    // the mantissa/exponent object shape
    let json_big = WireValue::Obj(vec![
        ("m".to_string(), WireValue::Num(DecNum::Num { mant: 15, exp: -1 })),
        ("e".to_string(), WireValue::Num(DecNum::Num { mant: 2, exp: 1 })),
    ]);
    let result = TalismanNumber::from_value(&json_big).unwrap();
    match result {
        TalismanNumber::Big { m, e } => {
            assert_eq!(m, DecNum::Num { mant: 15, exp: -1 });
            assert_eq!(e, DecNum::Num { mant: 2, exp: 1 });
        },
        _ => panic!("Expected Big number"),
    }

    // the tower object shape
    let json_omega = WireValue::Obj(vec![
        (
            "array".to_string(),
            WireValue::Arr(vec![
                WireValue::Num(DecNum::Num { mant: 308, exp: 0 }),
                WireValue::Num(DecNum::Num { mant: 2, exp: 0 }),
            ]),
        ),
        ("sign".to_string(), WireValue::Num(DecNum::Num { mant: 1, exp: 0 })),
    ]);
    let result = TalismanNumber::from_value(&json_omega).unwrap();
    match result {
        TalismanNumber::Omega { array, sign } => {
            assert_eq!(
                array,
                vec![DecNum::Num { mant: 308, exp: 0 }, DecNum::Num { mant: 2, exp: 0 }]
            );
            assert_eq!(sign, 1);
        },
        _ => panic!("Expected Omega number"),
    }
}

#[test]
fn talisman_number_test_comparison() {
    let small = TalismanNumber::Regular(DecNum::Num { mant: 1, exp: 3 });
    let big = TalismanNumber::Big {
        m: DecNum::Num { mant: 1, exp: 0 },
        e: DecNum::Num { mant: 1, exp: 1 },
    };
    let huge = TalismanNumber::NotationString("eeeee1.234e56789".to_string());

    assert!(matches!(small.compare(&big), Ord3::Less));
    assert!(matches!(big.compare(&huge), Ord3::Less));
    assert!(matches!(small.compare(&huge), Ord3::Less));
}

#[test]
fn test_addition() {
    let a = TalismanNumber::Regular(DecNum::Num { mant: 1, exp: 2 });
    let b = TalismanNumber::Regular(DecNum::Num { mant: 2, exp: 2 });
    let result = a.add(&b).unwrap();

    match result {
        TalismanNumber::Regular(n) => assert_eq!(n, DecNum::Num { mant: 3, exp: 2 }),
        _ => panic!("Expected regular number"),
    }
}

#[test]
fn parse_special_and_symbolic_forms() {
    match TalismanNumber::from_notation_string("").unwrap() {
        TalismanNumber::Regular(d) => assert_eq!(d, DecNum::Num { mant: 0, exp: 0 }),
        _ => panic!("expected zero"),
    }
    match TalismanNumber::from_notation_string("Infinity").unwrap() {
        TalismanNumber::Regular(d) => assert_eq!(d, DecNum::Inf { neg: false }),
        _ => panic!("expected infinity"),
    }
    match TalismanNumber::from_notation_string("nan").unwrap() {
        TalismanNumber::Regular(d) => assert_eq!(d, DecNum::NaN),
        _ => panic!("expected the not-a-number value"),
    }
    match TalismanNumber::from_notation_string("e12#34##5678").unwrap() {
        TalismanNumber::NotationString(s) => assert_eq!(s, "e12#34##5678"),
        _ => panic!("expected a symbolic form"),
    }
    match TalismanNumber::from_notation_string("eeeee1.234e56789").unwrap() {
        TalismanNumber::NotationString(s) => assert_eq!(s, "eeeee1.234e56789"),
        _ => panic!("expected a symbolic form"),
    }
    match TalismanNumber::from_notation_string("e1.234e56789").unwrap() {
        TalismanNumber::Omega { array, sign } => {
            assert_eq!(array.len(), 2);
            assert_eq!(sign, 1);
            assert_eq!(array[1], DecNum::Num { mant: 2, exp: 0 });
        },
        _ => panic!("expected a two-level tower"),
    }
    // commas are stripped before parsing
    match TalismanNumber::from_notation_string("1,234,567").unwrap() {
        TalismanNumber::Regular(d) => assert_eq!(d, DecNum::Num { mant: 1234567, exp: 0 }),
        _ => panic!("expected a plain number"),
    }
    // malformed plain numbers are refused
    assert!(TalismanNumber::from_notation_string("12x4").is_err());
    assert!(TalismanNumber::from_notation_string("1e2e3").is_err());
}

#[test]
fn parse_render_keeps_magnitude_tier() {
    // rendering a parsed value and parsing it back lands in the same
    // magnitude tier: both sit strictly between the neighbouring decades
    let v = TalismanNumber::from_notation_string("1.234e15").unwrap();
    let rendered = v.to_balatro_notation(3);
    let back = TalismanNumber::from_notation_string(&rendered).unwrap();
    let lo = TalismanNumber::Big {
        m: DecNum::Num { mant: 1, exp: 0 },
        e: DecNum::Num { mant: 14, exp: 0 },
    };
    let hi = TalismanNumber::Big {
        m: DecNum::Num { mant: 1, exp: 0 },
        e: DecNum::Num { mant: 16, exp: 0 },
    };
    assert!(matches!(lo.compare(&v), Ord3::Less));
    assert!(matches!(v.compare(&hi), Ord3::Less));
    assert!(matches!(lo.compare(&back), Ord3::Less));
    assert!(matches!(back.compare(&hi), Ord3::Less));
}

#[test]
fn ordering_is_total_on_mixed_shapes() {
    let values = vec![
        TalismanNumber::Regular(DecNum::Num { mant: -5, exp: 0 }),
        TalismanNumber::Regular(DecNum::Num { mant: 7, exp: 1 }),
        TalismanNumber::Big {
            m: DecNum::Num { mant: 2, exp: 0 },
            e: DecNum::Num { mant: 30, exp: 0 },
        },
        TalismanNumber::Omega {
            array: vec![DecNum::Num { mant: 308, exp: 0 }, DecNum::Num { mant: 2, exp: 0 }],
            sign: 1,
        },
        TalismanNumber::NotationString("ee1.0e9".to_string()),
    ];
    for a in &values {
        assert!(matches!(a.compare(a), Ord3::Equal));
        for b in &values {
            let ab = a.compare(b);
            let ba = b.compare(a);
            match ab {
                Ord3::Less => assert!(matches!(ba, Ord3::Greater)),
                Ord3::Equal => assert!(matches!(ba, Ord3::Equal)),
                Ord3::Greater => assert!(matches!(ba, Ord3::Less)),
            }
        }
    }
}

#[test]
fn format_with_commas_groups_digits() {
    assert_eq!(lobby_server::talisman_number::format_with_commas(0), "0");
    assert_eq!(lobby_server::talisman_number::format_with_commas(999), "999");
    assert_eq!(lobby_server::talisman_number::format_with_commas(1000), "1,000");
    assert_eq!(lobby_server::talisman_number::format_with_commas(1234567), "1,234,567");
    assert_eq!(lobby_server::talisman_number::format_with_commas(-1234567), "-1,234,567");
}

#[test]
fn mixed_addition_keeps_larger_magnitude() {
    let small = TalismanNumber::Regular(DecNum::Num { mant: 5, exp: 0 });
    let big = TalismanNumber::Big {
        m: DecNum::Num { mant: 1, exp: 0 },
        e: DecNum::Num { mant: 40, exp: 0 },
    };
    match small.add(&big).unwrap() {
        TalismanNumber::Big { m, e } => {
            assert_eq!(m, DecNum::Num { mant: 1, exp: 0 });
            assert_eq!(e, DecNum::Num { mant: 40, exp: 0 });
        },
        _ => panic!("expected the larger operand"),
    }
}

#[test]
fn big_addition_aligns_close_exponents() {
    // 1.23e100 + 4.56e99 = 1.686e100
    let a = TalismanNumber::Big {
        m: DecNum::Num { mant: 123, exp: -2 },
        e: DecNum::Num { mant: 1, exp: 2 },
    };
    let b = TalismanNumber::Big {
        m: DecNum::Num { mant: 456, exp: -2 },
        e: DecNum::Num { mant: 99, exp: 0 },
    };
    match a.add(&b).unwrap() {
        TalismanNumber::Big { m, e } => {
            assert_eq!(e, DecNum::Num { mant: 1, exp: 2 });
            assert_eq!(m, DecNum::Num { mant: 1686, exp: -3 });
        },
        _ => panic!("expected a mantissa/exponent pair"),
    }
}

#[test]
fn negative_whole_renders_with_commas() {
    let v = TalismanNumber::Regular(DecNum::Num { mant: -42000, exp: 0 });
    assert_eq!(v.to_balatro_notation(3), "-42,000");
}

#[test]
fn short_tower_renders_e_prefix_and_floor() {
    let t = TalismanNumber::Omega {
        array: vec![DecNum::Num { mant: 15, exp: 0 }, DecNum::Num { mant: 2, exp: 0 }],
        sign: 1,
    };
    assert_eq!(t.to_balatro_notation(3), "ee1.000e15");
}

#[test]
fn scientific_rendering_pins_three_places() {
    let v = TalismanNumber::Regular(DecNum::Num { mant: 42, exp: 8 });
    assert_eq!(v.to_balatro_notation(3), "4.200e9");
}

#[test]
fn tall_tower_renders_hash_separated_levels() {
    let t = TalismanNumber::Omega {
        array: vec![
            DecNum::Num { mant: 5, exp: 0 },
            DecNum::Num { mant: 3, exp: 0 },
            DecNum::Num { mant: 2, exp: 0 },
        ],
        sign: 1,
    };
    assert_eq!(t.to_balatro_notation(2), "e5.00#3#2");
}
