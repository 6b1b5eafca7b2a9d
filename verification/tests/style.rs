use bevy_dioxus::style::{
    parse_hex_color, parse_style_attributes, parse_val, set_style_attribute, AlignContent, Color,
    Decimal, Display, FlexDirection, JustifyContent, PositionType, Style, StyleError,
    TemplateAttribute, UiRect, Val,
};

fn whole(n: u64) -> Decimal {
    Decimal { negative: false, mantissa: n, scale: 0 }
}

fn fixed(name: &str, value: &str) -> TemplateAttribute {
    TemplateAttribute::Static { name: name.to_string(), value: value.to_string() }
}

#[test]
fn viewport_width_is_a_percentage() {
    assert_eq!(parse_val("100vw"), Ok(Val::Vw(whole(100))));
}

#[test]
fn viewport_height_is_a_percentage() {
    assert_eq!(parse_val("42vh"), Ok(Val::Vh(whole(42))));
}

#[test]
fn bare_number_and_px_are_the_same_pixels() {
    assert_eq!(parse_val("42"), Ok(Val::Px(whole(42))));
    assert_eq!(parse_val("42px"), Ok(Val::Px(whole(42))));
    assert_eq!(parse_val("42"), parse_val("42px"));
}

#[test]
fn unknown_unit_is_rejected() {
    assert_eq!(parse_val("42xy"), Err(StyleError::UnsupportedVal));
    assert_eq!(parse_val("42p"), Err(StyleError::UnsupportedVal));
    assert_eq!(parse_val("42pxx"), Err(StyleError::UnsupportedVal));
    assert_eq!(parse_val("42 px"), Err(StyleError::UnsupportedVal));
}

#[test]
fn fractions_keep_their_scale() {
    assert_eq!(
        parse_val("12.75px"),
        Ok(Val::Px(Decimal { negative: false, mantissa: 1275, scale: 2 }))
    );
    assert_eq!(parse_val("0.5"), Ok(Val::Px(Decimal { negative: false, mantissa: 5, scale: 1 })));
    assert_eq!(parse_val(".5vw"), Ok(Val::Vw(Decimal { negative: false, mantissa: 5, scale: 1 })));
    assert_eq!(parse_val("5."), Ok(Val::Px(whole(5))));
    assert_eq!(parse_val("42.0"), Ok(Val::Px(Decimal { negative: false, mantissa: 420, scale: 1 })));
    assert_eq!(parse_val("007"), Ok(Val::Px(whole(7))));
}

#[test]
fn signs_are_read() {
    assert_eq!(parse_val("-3"), Ok(Val::Px(Decimal { negative: true, mantissa: 3, scale: 0 })));
    assert_eq!(parse_val("+7.25vh"), Ok(Val::Vh(Decimal { negative: false, mantissa: 725, scale: 2 })));
    assert_eq!(parse_val("-0"), Ok(Val::Px(Decimal { negative: true, mantissa: 0, scale: 0 })));
}

#[test]
fn what_is_no_number_is_rejected() {
    for text in ["", ".", "-", "+", "px", "vw", "-.px", "1.2.3", "1e3", "--1", "1-", "a", "\u{ff14}\u{ff12}", "0x10", " 1"] {
        assert_eq!(parse_val(text), Err(StyleError::UnsupportedVal), "{}", text);
    }
}

#[test]
fn mantissa_must_fit_sixty_four_bits() {
    assert_eq!(parse_val("18446744073709551615"), Ok(Val::Px(whole(u64::MAX))));
    assert_eq!(parse_val("18446744073709551616"), Err(StyleError::UnsupportedVal));
    assert_eq!(parse_val("1844674407370955161.6px"), Err(StyleError::UnsupportedVal));
    assert_eq!(
        parse_val("1844674407370955161.5px"),
        Ok(Val::Px(Decimal { negative: false, mantissa: u64::MAX, scale: 1 }))
    );
    assert_eq!(parse_val("99999999999999999999999999"), Err(StyleError::UnsupportedVal));
    assert_eq!(parse_val("00000000000000000000000001"), Ok(Val::Px(whole(1))));
}

#[test]
fn six_digit_colours() {
    assert_eq!(parse_hex_color("#ff0000"), Ok(Color { red: 255, green: 0, blue: 0, alpha: 255 }));
    assert_eq!(parse_hex_color("1A2b3C"), Ok(Color { red: 26, green: 43, blue: 60, alpha: 255 }));
}

#[test]
fn eight_digit_colours_carry_opacity() {
    assert_eq!(
        parse_hex_color("#11223344"),
        Ok(Color { red: 0x11, green: 0x22, blue: 0x33, alpha: 0x44 })
    );
}

#[test]
fn short_colours_double_each_digit() {
    assert_eq!(parse_hex_color("fff"), Ok(Color { red: 255, green: 255, blue: 255, alpha: 255 }));
    assert_eq!(
        parse_hex_color("#1a9"),
        Ok(Color { red: 0x11, green: 0xaa, blue: 0x99, alpha: 255 })
    );
    assert_eq!(
        parse_hex_color("#ABCD"),
        Ok(Color { red: 0xaa, green: 0xbb, blue: 0xcc, alpha: 0xdd })
    );
}

#[test]
fn bad_colours_are_rejected() {
    for text in ["", "#", "#f", "#ff", "#fffff", "#fffffff", "#fffffffff", "#ggg", "red", "##fff", "#ff 000", "#ff00\u{e9}"] {
        assert_eq!(parse_hex_color(text), Err(StyleError::UnsupportedColor), "{}", text);
    }
}

#[test]
fn initial_style() {
    let style = Style::default();
    assert_eq!(style.display, Display::Flex);
    assert_eq!(style.position_type, PositionType::Relative);
    assert_eq!(style.flex_direction, FlexDirection::Row);
    assert_eq!(style.justify_content, JustifyContent::Unset);
    assert_eq!(style.align_content, AlignContent::Unset);
    assert_eq!(style.padding, UiRect::all(Val::Px(whole(0))));
    assert_eq!(style.width, Val::Auto);
    assert_eq!(style.height, Val::Auto);
    assert_eq!(style.background_color, Color { red: 0, green: 0, blue: 0, alpha: 0 });
}

#[test]
fn every_supported_attribute_sets_its_field() {
    let cases: Vec<(&str, &str, Style)> = vec![
        ("display", "flex", Style { display: Display::Flex, ..Style::default() }),
        ("display", "grid", Style { display: Display::Grid, ..Style::default() }),
        ("display", "none", Style { display: Display::Hidden, ..Style::default() }),
        ("position", "relative", Style { position_type: PositionType::Relative, ..Style::default() }),
        ("position", "absolute", Style { position_type: PositionType::Absolute, ..Style::default() }),
        ("flex-direction", "column", Style { flex_direction: FlexDirection::Column, ..Style::default() }),
        (
            "background-color",
            "#00ff7f",
            Style {
                background_color: Color { red: 0, green: 255, blue: 127, alpha: 255 },
                ..Style::default()
            },
        ),
        ("padding", "8", Style { padding: UiRect::all(Val::Px(whole(8))), ..Style::default() }),
        ("width", "100vw", Style { width: Val::Vw(whole(100)), ..Style::default() }),
        ("height", "50vh", Style { height: Val::Vh(whole(50)), ..Style::default() }),
        (
            "justify-content",
            "space-between",
            Style { justify_content: JustifyContent::SpaceBetween, ..Style::default() },
        ),
        (
            "align-content",
            "space-between",
            Style { align_content: AlignContent::SpaceBetween, ..Style::default() },
        ),
    ];
    for (name, value, expected) in cases {
        let mut style = Style::default();
        assert_eq!(set_style_attribute(name, value, &mut style), Ok(()), "{}: {}", name, value);
        assert_eq!(style, expected, "{}: {}", name, value);
    }
}

#[test]
fn unsupported_property_is_rejected() {
    let mut style = Style::default();
    assert_eq!(set_style_attribute("color", "red", &mut style), Err(StyleError::UnsupportedAttribute));
    assert_eq!(set_style_attribute("Display", "flex", &mut style), Err(StyleError::UnsupportedAttribute));
    assert_eq!(set_style_attribute("", "", &mut style), Err(StyleError::UnsupportedAttribute));
    assert_eq!(style, Style::default());
}

#[test]
fn unsupported_value_of_a_known_property_is_rejected() {
    let mut style = Style { display: Display::Grid, ..Style::default() };
    let before = style;
    assert_eq!(set_style_attribute("display", "block", &mut style), Err(StyleError::UnsupportedAttribute));
    assert_eq!(set_style_attribute("position", "fixed", &mut style), Err(StyleError::UnsupportedAttribute));
    assert_eq!(set_style_attribute("flex-direction", "row", &mut style), Err(StyleError::UnsupportedAttribute));
    assert_eq!(set_style_attribute("justify-content", "center", &mut style), Err(StyleError::UnsupportedAttribute));
    assert_eq!(set_style_attribute("align-content", "center", &mut style), Err(StyleError::UnsupportedAttribute));
    assert_eq!(set_style_attribute("background-color", "red", &mut style), Err(StyleError::UnsupportedColor));
    assert_eq!(set_style_attribute("padding", "42xy", &mut style), Err(StyleError::UnsupportedVal));
    assert_eq!(set_style_attribute("width", "wide", &mut style), Err(StyleError::UnsupportedVal));
    assert_eq!(set_style_attribute("height", "", &mut style), Err(StyleError::UnsupportedVal));
    assert_eq!(style, before);
}

#[test]
fn background_colour_leaves_the_other_fields() {
    let mut style = Style {
        display: Display::Grid,
        position_type: PositionType::Absolute,
        flex_direction: FlexDirection::Column,
        justify_content: JustifyContent::SpaceBetween,
        align_content: AlignContent::SpaceBetween,
        padding: UiRect::all(Val::Px(whole(3))),
        width: Val::Vw(whole(10)),
        height: Val::Vh(whole(20)),
        background_color: Color { red: 1, green: 2, blue: 3, alpha: 4 },
    };
    let before = style;
    assert_eq!(set_style_attribute("background-color", "#ff0000", &mut style), Ok(()));
    assert_eq!(
        style,
        Style { background_color: Color { red: 255, green: 0, blue: 0, alpha: 255 }, ..before }
    );
}

#[test]
fn static_attributes_are_set_in_order() {
    let attributes = vec![
        fixed("width", "10"),
        TemplateAttribute::Dynamic { id: 0 },
        fixed("padding", "8px"),
        fixed("width", "20vw"),
    ];
    assert_eq!(
        parse_style_attributes(&attributes),
        Ok(Style {
            width: Val::Vw(whole(20)),
            padding: UiRect::all(Val::Px(whole(8))),
            ..Style::default()
        })
    );
    assert_eq!(parse_style_attributes(&Vec::new()), Ok(Style::default()));
}

#[test]
fn first_rejected_attribute_is_reported() {
    let attributes = vec![fixed("width", "10"), fixed("height", "tall"), fixed("color", "red")];
    assert_eq!(parse_style_attributes(&attributes), Err(StyleError::UnsupportedVal));
    let attributes = vec![fixed("color", "red"), fixed("height", "tall")];
    assert_eq!(parse_style_attributes(&attributes), Err(StyleError::UnsupportedAttribute));
}
