use npnp::passive_naming::{
    build_name_from_tokens, build_passive_component_name, classify_passive_kind, find_param,
    format_marker_token, normalize_capacitance, normalize_current, normalize_dcr,
    normalize_freeform_token, normalize_frequency, normalize_inductance, normalize_inductor_type, normalize_package,
    normalize_power, normalize_resistance, normalize_tolerance, normalize_voltage,
    parse_number_and_suffix, passive_quantities, PassiveKind, Quantity, Reading, Rule, Scale,
    SchlibParameter,
};
use npnp::schlib::normalize_lcsc_id;

fn test_param(name: &str, value: &str) -> SchlibParameter {
    SchlibParameter {
        name: name.to_string(),
        value: value.to_string(),
    }
}

/// What a quantity comes to, in double precision.
fn measure(quantity: &Quantity) -> Reading {
    let number: f64 = quantity.number.parse().unwrap_or(f64::NAN);
    let scale = match quantity.scale {
        Scale::Pico => 1e-12,
        Scale::Nano => 1e-9,
        Scale::Micro => 1e-6,
        Scale::Milli => 1e-3,
        Scale::One => 1.0,
        Scale::Kilo => 1e3,
        Scale::Mega => 1e6,
    };
    let scaled = number * scale;
    let (unit, value) = match quantity.rule {
        Rule::Resistance if scaled >= 1_000_000.0 => (0, scaled / 1_000_000.0),
        Rule::Resistance if scaled >= 1_000.0 => (1, scaled / 1_000.0),
        Rule::Resistance => (2, scaled),
        Rule::Capacitance if scaled >= 1e-6 => (0, scaled * 1e6),
        Rule::Capacitance if scaled >= 1e-9 => (1, scaled * 1e9),
        Rule::Capacitance => (2, scaled * 1e12),
        Rule::Inductance if scaled >= 1e-6 => (0, scaled * 1e6),
        Rule::Inductance => (1, scaled * 1e9),
        Rule::Thousandths => (0, number * scale * 1000.0),
        Rule::Plain => (0, number),
    };
    let text = if value.is_finite() && value >= 0.0 {
        Some(format!("{value:.9}"))
    } else {
        None
    };
    Reading { unit, text }
}

fn named(designator: &str, params: &[SchlibParameter], id: Option<&str>) -> Option<String> {
    let readings: Vec<(Quantity, Reading)> = passive_quantities(designator, params)
        .into_iter()
        .map(|quantity| {
            let reading = measure(&quantity);
            (quantity, reading)
        })
        .collect();
    build_passive_component_name(designator, params, id, &readings)
}

#[test]
fn builds_resistor_name_per_lcsc_rule() {
    let params = vec![
        test_param("Resistance", "1m\u{03A9}"),
        test_param("Package", "2512"),
        test_param("Tolerance", "\u{00B1}1%"),
        test_param("Power", "3W"),
    ];
    assert_eq!(
        named("R?", &params, Some("C2903470")).as_deref(),
        Some("RES_0R001_2512_1P_3W_C2903470")
    );
}

#[test]
fn builds_capacitor_name_per_lcsc_rule() {
    let params = vec![
        test_param("Capacitance", "100nF"),
        test_param("Package", "0402"),
        test_param("Voltage", "16V"),
        test_param("Dielectric", "X7R"),
        test_param("Tolerance", "\u{00B1}10%"),
    ];
    assert_eq!(
        named("C?", &params, Some("C1525")).as_deref(),
        Some("CAP_100N_0402_16V_X7R_10P_C1525")
    );
}

#[test]
fn builds_inductor_name_per_lcsc_rule() {
    let params = vec![
        test_param("Inductance", "4.7uH"),
        test_param("Package", "SMD,6x6mm"),
        test_param("Current Rating", "3.3A"),
        test_param("DCR", "31m\u{03A9}"),
        test_param("Type", "Shielded"),
    ];
    assert_eq!(
        named("L?", &params, Some("C5291878")).as_deref(),
        Some("IND_4U7_SMD6X6_3A3_31MOR_SHIELDED_C5291878")
    );
}

#[test]
fn builds_ferrite_bead_name_per_lcsc_rule() {
    let params = vec![
        test_param("Category", "Ferrite Beads"),
        test_param("Impedance", "600\u{03A9}"),
        test_param("Frequency", "100MHz"),
        test_param("Package", "0603"),
        test_param("Current Rating", "300mA"),
    ];
    assert_eq!(
        named("L?", &params, Some("C3716403")).as_deref(),
        Some("FB_600R_100MHZ_0603_300MA_C3716403")
    );
}

#[test]
fn omits_missing_optional_fields_without_empty_underscores() {
    let params = vec![
        test_param("Resistance", "10k\u{03A9}"),
        test_param("Package", "0402"),
    ];
    assert_eq!(
        named("R?", &params, Some("C25804")).as_deref(),
        Some("RES_10K_0402_C25804")
    );
}

#[test]
fn names_need_a_part_number_and_a_rating() {
    let params = vec![test_param("Resistance", "10k\u{03A9}")];
    assert_eq!(named("R?", &params, None), None);
    assert_eq!(named("R?", &params, Some("RP2040")), None);
    assert_eq!(named("R?", &[], Some("C25804")), None);
    assert_eq!(named("U?", &params, Some("C25804")), None);
}

#[test]
fn every_quantity_that_a_name_needs_is_listed() {
    let params = vec![
        test_param("Resistance", "4.7k\u{03A9}"),
        test_param("Tolerance", "\u{00B1}0.5%"),
        test_param("Power", "62.5mW"),
    ];
    let quantities = passive_quantities("R1", &params);
    assert!(quantities
        .iter()
        .any(|q| q.number == "4.7" && q.scale == Scale::Kilo && q.rule == Rule::Resistance));
    assert_eq!(
        named("R1", &params, Some("C1")).as_deref(),
        Some("RES_4K7_0P5_62M5W_C1")
    );
}

#[test]
fn a_rating_without_a_reading_gives_no_token() {
    assert_eq!(normalize_resistance("10k\u{03A9}", &[]), None);
    let readings = vec![(
        Quantity {
            number: "10".to_string(),
            scale: Scale::Kilo,
            rule: Rule::Resistance,
        },
        Reading {
            unit: 1,
            text: Some("10.000000000".to_string()),
        },
    )];
    assert_eq!(
        normalize_resistance("10k\u{03A9}", &readings).as_deref(),
        Some("10K")
    );
}

#[test]
fn a_marker_stands_in_place_of_the_point() {
    assert_eq!(format_marker_token("4.700000000", "K"), "4K7");
    assert_eq!(format_marker_token("10.000000000", "K"), "10K");
    assert_eq!(format_marker_token("0.001000000", "R"), "0R001");
}

#[test]
fn numbers_part_from_their_suffixes() {
    assert_eq!(
        parse_number_and_suffix(" 4.7uH "),
        Some(("4.7".to_string(), "uH".to_string()))
    );
    assert_eq!(parse_number_and_suffix("ohm"), None);
}

#[test]
fn packages_lose_their_units() {
    assert_eq!(normalize_package("0402").as_deref(), Some("0402"));
    assert_eq!(normalize_package("SMD,6x6mm").as_deref(), Some("SMD6X6"));
    assert_eq!(normalize_package("  "), None);
}

#[test]
fn tokens_of_any_text_are_their_own_tokens() {
    for (value, token) in [
        (" Thick Film -- (1%) ", "THICK_FILM_1P"),
        ("__a__b__", "A_B"),
        ("4.7\u{3bc}H", "4D7UH"),
        ("\u{2126}", "R"),
        ("2\u{d7}3", "2X3"),
        ("-a-", "A"),
    ] {
        assert_eq!(normalize_freeform_token(value).as_deref(), Some(token));
        assert_eq!(normalize_freeform_token(token).as_deref(), Some(token));
    }
    for value in ["", "  ", "_-_ ()", "\u{4e2d}\u{6587}", "+\u{b1}"] {
        assert_eq!(normalize_freeform_token(value), None);
    }
}

#[test]
fn names_hold_a_field_between_prefix_and_part_number() {
    let params = [test_param("Resistance", "10k\u{3a9}"), test_param("Package", "0402")];
    let name = named("R?", &params, Some("C25804")).unwrap();
    assert!(name.starts_with("RES_") && name.ends_with("_C25804"));
    assert!(name.len() > "RES__C25804".len());
    assert_eq!(named("R?", &[], Some("C25804")), None);
}

#[test]
fn designators_tell_the_kind() {
    assert_eq!(classify_passive_kind("R12", &[]), Some(PassiveKind::Res));
    assert_eq!(classify_passive_kind("C?", &[]), Some(PassiveKind::Cap));
    assert_eq!(classify_passive_kind("U1", &[]), None);
}

#[test]
fn blank_tokens_are_left_out_of_names() {
    let tokens = vec![Some("10K".to_string()), None, Some(" ".to_string())];
    assert_eq!(
        build_name_from_tokens(PassiveKind::Res, tokens, Some("c7")).as_deref(),
        Some("RES_10K_C7")
    );
    assert_eq!(
        build_name_from_tokens(PassiveKind::Res, vec![None], Some("C7")),
        None
    );
}

#[test]
fn normalizes_lcsc_ids_case_insensitively() {
    assert_eq!(normalize_lcsc_id(" c2040 ").as_deref(), Some("C2040"));
    assert!(normalize_lcsc_id("RP2040").is_none());
}

#[test]
fn normal_part_numbers_stay() {
    for value in ["C1", " c0042", "C99\t"] {
        let id = normalize_lcsc_id(value).unwrap();
        assert_eq!(normalize_lcsc_id(&id), Some(id));
    }
    assert_eq!(normalize_lcsc_id("C"), None);
    assert_eq!(normalize_lcsc_id("C12a"), None);
}

/// Readings of a number in every scale and under every rule.
fn all_readings(number: &str) -> Vec<(Quantity, Reading)> {
    let mut readings = Vec::new();
    for scale in [
        Scale::Pico,
        Scale::Nano,
        Scale::Micro,
        Scale::Milli,
        Scale::One,
        Scale::Kilo,
        Scale::Mega,
    ] {
        for rule in [
            Rule::Resistance,
            Rule::Capacitance,
            Rule::Inductance,
            Rule::Thousandths,
            Rule::Plain,
        ] {
            let quantity = Quantity {
                number: number.to_string(),
                scale,
                rule,
            };
            let reading = measure(&quantity);
            readings.push((quantity, reading));
        }
    }
    readings
}

#[test]
fn ratings_become_tokens() {
    let token = |text: &str, number: &str| {
        let readings = all_readings(number);
        (
            normalize_resistance(text, &readings),
            normalize_capacitance(text, &readings),
            normalize_inductance(text, &readings),
        )
    };
    assert_eq!(token("2.2M\u{03A9}", "2.2").0.as_deref(), Some("2M2"));
    assert_eq!(token("470\u{03A9}", "470").0.as_deref(), Some("470R"));
    assert_eq!(token("4R7", "4").0.as_deref(), Some("4R7"));
    assert_eq!(token("10 \u{00B5}F", "10").1.as_deref(), Some("10U"));
    assert_eq!(token("0.5nF", "0.5").1.as_deref(), Some("500P"));
    assert_eq!(token("4N7", "4").1.as_deref(), Some("4N7"));
    assert_eq!(token("0.47uH", "0.47").2.as_deref(), Some("470N"));
    assert_eq!(token("1mH", "1").2.as_deref(), Some("1000U"));
}

#[test]
fn plain_ratings_become_tokens() {
    let readings = all_readings("6.3");
    assert_eq!(normalize_voltage("6.3V", &readings).as_deref(), Some("6V3"));
    assert_eq!(normalize_voltage("6.3kV", &readings).as_deref(), Some("6D3KV"));
    assert_eq!(
        normalize_tolerance("\u{00B1}6.3%", &readings).as_deref(),
        Some("6P3")
    );
    assert_eq!(normalize_power("6.3mW", &readings).as_deref(), Some("6M3W"));
    assert_eq!(normalize_power("6.3W", &readings).as_deref(), Some("6W3"));
    assert_eq!(normalize_current("6.3mA", &readings).as_deref(), Some("6M3A"));
    assert_eq!(normalize_current("6.3A", &readings).as_deref(), Some("6A3"));
    assert_eq!(
        normalize_frequency("6.3GHz", &readings).as_deref(),
        Some("6G3HZ")
    );
    assert_eq!(
        normalize_frequency("6.3kHz", &readings).as_deref(),
        Some("6K3HZ")
    );
    assert_eq!(normalize_dcr("6.3m\u{03A9}", &readings).as_deref(), Some("6M3OR"));
    assert_eq!(normalize_dcr("6.3k\u{03A9}", &readings), None);
}

#[test]
fn inductor_types_are_looked_for_everywhere() {
    let typed = vec![test_param("Type", "Unshielded, wirewound")];
    assert_eq!(normalize_inductor_type(&typed).as_deref(), Some("UNSHIELDED"));
    let hidden = vec![test_param("Notes", "fully molded")];
    assert_eq!(normalize_inductor_type(&hidden).as_deref(), Some("MOLDED"));
    assert_eq!(normalize_inductor_type(&[]), None);
    assert_eq!(find_param(&typed, &["construction", "type"]), Some("Unshielded, wirewound"));
    assert_eq!(find_param(&hidden, &["type"]), None);
}
