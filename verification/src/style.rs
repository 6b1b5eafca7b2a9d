//! The style resolver: from raw attribute names and values to typed style
//! properties. Resolution is pure: it reads two strings and a style, and
//! gives the updated style or the reason why the attribute is not supported.
use crate::text::str_eq;
use vstd::prelude::*;
use vstd::string::*;
use vstd::utf8::encode_utf8;

verus! {

pub const HASH: u8 = 35;

pub const PLUS: u8 = 43;

pub const MINUS: u8 = 45;

pub const DOT: u8 = 46;

pub const DIGIT_0: u8 = 48;

pub const DIGIT_9: u8 = 57;

pub const UPPER_A: u8 = 65;

pub const UPPER_F: u8 = 70;

pub const LOWER_A: u8 = 97;

pub const LOWER_F: u8 = 102;

pub const LOWER_H: u8 = 104;

pub const LOWER_P: u8 = 112;

pub const LOWER_V: u8 = 118;

pub const LOWER_W: u8 = 119;

pub const LOWER_X: u8 = 120;

/// A decimal number as it was written: `mantissa / 10^scale`, negated if
/// `negative`. Both `42` and `42.0` are the number forty-two; they differ in
/// `scale`.
#[derive(Clone, Copy, Debug, PartialEq, Eq, Structural)]
pub struct Decimal {
    pub negative: bool,
    pub mantissa: u64,
    pub scale: usize,
}

/// A length: automatic, in device-independent pixels, or as a percentage of
/// the viewport's width or height.
#[derive(Clone, Copy, Debug, PartialEq, Eq, Structural)]
pub enum Val {
    Auto,
    Px(Decimal),
    Vw(Decimal),
    Vh(Decimal),
}

/// One length for each side of a box.
#[derive(Clone, Copy, Debug, PartialEq, Eq, Structural)]
pub struct UiRect {
    pub left: Val,
    pub right: Val,
    pub top: Val,
    pub bottom: Val,
}

/// A colour with eight bits for each of red, green, blue and opacity.
#[derive(Clone, Copy, Debug, PartialEq, Eq, Structural)]
pub struct Color {
    pub red: u8,
    pub green: u8,
    pub blue: u8,
    pub alpha: u8,
}

#[derive(Clone, Copy, Debug, PartialEq, Eq, Structural)]
pub enum Display {
    Flex,
    Grid,
    Hidden,
}

#[derive(Clone, Copy, Debug, PartialEq, Eq, Structural)]
pub enum PositionType {
    Relative,
    Absolute,
}

#[derive(Clone, Copy, Debug, PartialEq, Eq, Structural)]
pub enum FlexDirection {
    Row,
    Column,
}

#[derive(Clone, Copy, Debug, PartialEq, Eq, Structural)]
pub enum JustifyContent {
    Unset,
    SpaceBetween,
}

#[derive(Clone, Copy, Debug, PartialEq, Eq, Structural)]
pub enum AlignContent {
    Unset,
    SpaceBetween,
}

/// The resolved visual style of a node.
#[derive(Clone, Copy, Debug, PartialEq, Eq, Structural)]
pub struct Style {
    pub display: Display,
    pub position_type: PositionType,
    pub flex_direction: FlexDirection,
    pub justify_content: JustifyContent,
    pub align_content: AlignContent,
    pub padding: UiRect,
    pub width: Val,
    pub height: Val,
    pub background_color: Color,
}

/// Why an attribute was rejected.
#[derive(Clone, Copy, Debug, PartialEq, Eq, Structural)]
pub enum StyleError {
    /// The property is unknown, or the value is none of those listed for it.
    UnsupportedAttribute,
    /// The value of `background-color` is no hexadecimal colour.
    UnsupportedColor,
    /// The value of a length property is no number with an optional unit.
    UnsupportedVal,
}

/// An attribute as a template declares it: a fixed name and value, or a slot
/// that later edits fill.
pub enum TemplateAttribute {
    Static { name: String, value: String },
    Dynamic { id: usize },
}

pub open spec fn is_digit(b: u8) -> bool {
    DIGIT_0 <= b <= DIGIT_9
}

/// The end of the run of digits that starts at `from`.
pub open spec fn digit_run(s: Seq<u8>, from: int) -> int
    decreases s.len() - from,
{
    if 0 <= from < s.len() && is_digit(s[from]) {
        digit_run(s, from + 1)
    } else {
        from
    }
}

/// The number that a string of digits denotes in base ten.
pub open spec fn digits_value(s: Seq<u8>) -> nat
    decreases s.len(),
{
    if s.len() == 0 {
        0
    } else {
        10 * digits_value(s.drop_last()) + (s.last() - DIGIT_0) as nat
    }
}

/// The decimal that `s` spells: an optional sign, digits, and optionally a
/// point and more digits, with at least one digit in all and a mantissa that
/// fits 64 bits. Anything else spells none.
pub open spec fn decimal_of(s: Seq<u8>) -> Option<Decimal> {
    let signed = s.len() > 0 && (s[0] == PLUS || s[0] == MINUS);
    let start: int = if signed { 1 } else { 0 };
    let dot = digit_run(s, start);
    let pointed = dot < s.len() && s[dot] == DOT;
    let stop = if pointed { digit_run(s, dot + 1) } else { dot };
    let fraction = if pointed { s.subrange(dot + 1, stop) } else { Seq::<u8>::empty() };
    let digits = s.subrange(start, dot) + fraction;
    if stop == s.len() && digits.len() > 0 && digits_value(digits) <= u64::MAX {
        Some(
            Decimal {
                negative: signed && s[0] == MINUS,
                mantissa: digits_value(digits) as u64,
                scale: fraction.len() as usize,
            },
        )
    } else {
        None
    }
}

/// Whether `s` ends in the two bytes `first`, `second`.
pub open spec fn has_unit(s: Seq<u8>, first: u8, second: u8) -> bool {
    s.len() >= 2 && s[s.len() - 2] == first && s[s.len() - 1] == second
}

/// The length that `s` spells: a decimal alone or followed by `px` is in
/// pixels, one followed by `vw` or `vh` is a share of the viewport.
pub open spec fn val_of(s: Seq<u8>) -> Option<Val> {
    let number = s.subrange(0, s.len() - 2);
    if decimal_of(s) is Some {
        Some(Val::Px(decimal_of(s)->0))
    } else if has_unit(s, LOWER_P, LOWER_X) && decimal_of(number) is Some {
        Some(Val::Px(decimal_of(number)->0))
    } else if has_unit(s, LOWER_V, LOWER_W) && decimal_of(number) is Some {
        Some(Val::Vw(decimal_of(number)->0))
    } else if has_unit(s, LOWER_V, LOWER_H) && decimal_of(number) is Some {
        Some(Val::Vh(decimal_of(number)->0))
    } else {
        None
    }
}

/// The value of one hexadecimal digit.
pub open spec fn hex_digit(b: u8) -> Option<u8> {
    if DIGIT_0 <= b <= DIGIT_9 {
        Some((b - DIGIT_0) as u8)
    } else if UPPER_A <= b <= UPPER_F {
        Some((b - UPPER_A + 10) as u8)
    } else if LOWER_A <= b <= LOWER_F {
        Some((b - LOWER_A + 10) as u8)
    } else {
        None
    }
}

/// The byte that two hexadecimal digits spell.
pub open spec fn hex_pair(high: u8, low: u8) -> Option<u8> {
    match (hex_digit(high), hex_digit(low)) {
        (Some(h), Some(l)) => Some((16 * h + l) as u8),
        _ => None,
    }
}

/// The colour of four channels, if each of them is there.
pub open spec fn rgba_of(
    red: Option<u8>,
    green: Option<u8>,
    blue: Option<u8>,
    alpha: Option<u8>,
) -> Option<Color> {
    match (red, green, blue, alpha) {
        (Some(r), Some(g), Some(b), Some(a)) => Some(
            Color { red: r, green: g, blue: b, alpha: a },
        ),
        _ => None,
    }
}

/// The colour that `s` spells: after an optional `#`, three or four digits
/// (each doubled) or six or eight digits, for red, green, blue and, where
/// given, opacity. A colour without opacity is opaque.
pub open spec fn hex_color(s: Seq<u8>) -> Option<Color> {
    let h = if s.len() > 0 && s[0] == HASH { s.skip(1) } else { s };
    if h.len() == 3 {
        rgba_of(hex_pair(h[0], h[0]), hex_pair(h[1], h[1]), hex_pair(h[2], h[2]), Some(255u8))
    } else if h.len() == 4 {
        rgba_of(
            hex_pair(h[0], h[0]),
            hex_pair(h[1], h[1]),
            hex_pair(h[2], h[2]),
            hex_pair(h[3], h[3]),
        )
    } else if h.len() == 6 {
        rgba_of(hex_pair(h[0], h[1]), hex_pair(h[2], h[3]), hex_pair(h[4], h[5]), Some(255u8))
    } else if h.len() == 8 {
        rgba_of(
            hex_pair(h[0], h[1]),
            hex_pair(h[2], h[3]),
            hex_pair(h[4], h[5]),
            hex_pair(h[6], h[7]),
        )
    } else {
        None
    }
}

impl UiRect {
    /// The box with `v` on every side.
    pub open spec fn uniform(v: Val) -> UiRect {
        UiRect { left: v, right: v, top: v, bottom: v }
    }

    pub fn all(v: Val) -> (rect: UiRect)
        ensures
            rect == UiRect::uniform(v),
    {
        UiRect { left: v, right: v, top: v, bottom: v }
    }
}

impl Color {
    /// Fully transparent black: the background of a node that has none.
    pub open spec fn transparent() -> Color {
        Color { red: 0, green: 0, blue: 0, alpha: 0 }
    }
}

impl Decimal {
    /// The whole number `n`.
    pub open spec fn whole(n: u64) -> Decimal {
        Decimal { negative: false, mantissa: n, scale: 0 }
    }
}

impl Style {
    /// The style of a node before any attribute is set: a flex row at its
    /// natural size, without padding, on a transparent background.
    pub open spec fn initial() -> Style {
        Style {
            display: Display::Flex,
            position_type: PositionType::Relative,
            flex_direction: FlexDirection::Row,
            justify_content: JustifyContent::Unset,
            align_content: AlignContent::Unset,
            padding: UiRect::uniform(Val::Px(Decimal::whole(0))),
            width: Val::Auto,
            height: Val::Auto,
            background_color: Color::transparent(),
        }
    }
}

impl Default for Style {
    fn default() -> (style: Style)
        ensures
            style == Style::initial(),
    {
        let zero = Val::Px(Decimal { negative: false, mantissa: 0, scale: 0 });
        Style {
            display: Display::Flex,
            position_type: PositionType::Relative,
            flex_direction: FlexDirection::Row,
            justify_content: JustifyContent::Unset,
            align_content: AlignContent::Unset,
            padding: UiRect::all(zero),
            width: Val::Auto,
            height: Val::Auto,
            background_color: Color { red: 0, green: 0, blue: 0, alpha: 0 },
        }
    }
}

/// The style that `style` becomes when the attribute `name` is set to
/// `value`, or the reason why that attribute is not supported.
pub open spec fn styled(style: Style, name: Seq<char>, value: Seq<char>) -> Result<
    Style,
    StyleError,
> {
    let bytes = encode_utf8(value);
    if name == "display"@ && value == "flex"@ {
        Ok(Style { display: Display::Flex, ..style })
    } else if name == "display"@ && value == "grid"@ {
        Ok(Style { display: Display::Grid, ..style })
    } else if name == "display"@ && value == "none"@ {
        Ok(Style { display: Display::Hidden, ..style })
    } else if name == "position"@ && value == "relative"@ {
        Ok(Style { position_type: PositionType::Relative, ..style })
    } else if name == "position"@ && value == "absolute"@ {
        Ok(Style { position_type: PositionType::Absolute, ..style })
    } else if name == "flex-direction"@ && value == "column"@ {
        Ok(Style { flex_direction: FlexDirection::Column, ..style })
    } else if name == "background-color"@ {
        match hex_color(bytes) {
            Some(color) => Ok(Style { background_color: color, ..style }),
            None => Err(StyleError::UnsupportedColor),
        }
    } else if name == "padding"@ {
        match val_of(bytes) {
            Some(v) => Ok(Style { padding: UiRect::uniform(v), ..style }),
            None => Err(StyleError::UnsupportedVal),
        }
    } else if name == "width"@ {
        match val_of(bytes) {
            Some(v) => Ok(Style { width: v, ..style }),
            None => Err(StyleError::UnsupportedVal),
        }
    } else if name == "height"@ {
        match val_of(bytes) {
            Some(v) => Ok(Style { height: v, ..style }),
            None => Err(StyleError::UnsupportedVal),
        }
    } else if name == "justify-content"@ && value == "space-between"@ {
        Ok(Style { justify_content: JustifyContent::SpaceBetween, ..style })
    } else if name == "align-content"@ && value == "space-between"@ {
        Ok(Style { align_content: AlignContent::SpaceBetween, ..style })
    } else {
        Err(StyleError::UnsupportedAttribute)
    }
}

/// The style that the static attributes of `attributes` give, set in order
/// on the initial style, or the first rejection among them. Dynamic
/// attributes set nothing.
pub open spec fn styled_all(attributes: Seq<TemplateAttribute>) -> Result<Style, StyleError>
    decreases attributes.len(),
{
    if attributes.len() == 0 {
        Ok(Style::initial())
    } else {
        match styled_all(attributes.drop_last()) {
            Err(e) => Err(e),
            Ok(style) => match attributes.last() {
                TemplateAttribute::Static { name, value } => styled(style, name@, value@),
                TemplateAttribute::Dynamic { .. } => Ok(style),
            },
        }
    }
}

/// Setting the background colour changes the background colour and nothing
/// else.
pub proof fn lemma_background_color_alone(style: Style, value: Seq<char>)
    ensures
        match styled(style, "background-color"@, value) {
            Ok(after) => after == (Style { background_color: after.background_color, ..style }),
            Err(e) => e == StyleError::UnsupportedColor,
        },
{
    reveal_strlit("background-color");
    reveal_strlit("display");
    reveal_strlit("position");
    reveal_strlit("flex-direction");
    assert("background-color"@.len() == 16);
    assert("display"@.len() == 7);
    assert("position"@.len() == 8);
    assert("flex-direction"@.len() == 14);
}

fn is_digit_byte(b: u8) -> (digit: bool)
    ensures
        digit == is_digit(b),
{
    DIGIT_0 <= b && b <= DIGIT_9
}

/// Reads the digits of `b` from `from` on, up to `end`, and goes on with the
/// number `acc` that the digits `prefix` before them gave; `None` stands for
/// a number beyond 64 bits.
fn scan_digits(
    b: &[u8],
    from: usize,
    end: usize,
    acc: Option<u64>,
    Ghost(prefix): Ghost<Seq<u8>>,
) -> (r: (usize, Option<u64>))
    requires
        from <= end <= b@.len(),
        acc matches Some(v) ==> v == digits_value(prefix),
        acc is None ==> digits_value(prefix) > u64::MAX,
    ensures
        r.0 == digit_run(b@.take(end as int), from as int),
        from <= r.0 <= end,
        r.1 matches Some(v) ==> v == digits_value(prefix + b@.subrange(from as int, r.0 as int)),
        r.1 is None ==> digits_value(prefix + b@.subrange(from as int, r.0 as int)) > u64::MAX,
{
    let ghost s = b@.take(end as int);
    let mut i: usize = from;
    let mut acc = acc;
    assert(prefix + b@.subrange(from as int, from as int) =~= prefix);
    while i < end && is_digit_byte(b[i])
        invariant
            from <= i <= end <= b@.len(),
            s == b@.take(end as int),
            digit_run(s, from as int) == digit_run(s, i as int),
            acc matches Some(v) ==> v == digits_value(
                prefix + b@.subrange(from as int, i as int),
            ),
            acc is None ==> digits_value(prefix + b@.subrange(from as int, i as int))
                > u64::MAX,
        decreases end - i,
    {
        let d: u64 = (b[i] - DIGIT_0) as u64;
        proof {
            let before = prefix + b@.subrange(from as int, i as int);
            let after = prefix + b@.subrange(from as int, i + 1);
            assert(after.drop_last() =~= before);
            assert(after.last() == b@[i as int]);
            assert(s[i as int] == b@[i as int]);
            assert(digits_value(after) == 10 * digits_value(before) + d);
        }
        acc =
        match acc {
            Some(v) => match v.checked_mul(10) {
                Some(tenfold) => tenfold.checked_add(d),
                None => None,
            },
            None => None,
        };
        i += 1;
    }
    (i, acc)
}

/// Reads the first `end` bytes of `b` as a decimal.
fn parse_decimal(b: &[u8], end: usize) -> (r: Option<Decimal>)
    requires
        end <= b@.len(),
    ensures
        r == decimal_of(b@.take(end as int)),
{
    let ghost s = b@.take(end as int);
    let signed = end > 0 && (b[0] == PLUS || b[0] == MINUS);
    let negative = signed && b[0] == MINUS;
    let start: usize = if signed { 1 } else { 0 };
    let (dot, whole) = scan_digits(b, start, end, Some(0), Ghost(Seq::empty()));
    assert(Seq::<u8>::empty() + b@.subrange(start as int, dot as int) =~= s.subrange(
        start as int,
        dot as int,
    ));
    let pointed = dot < end && b[dot] == DOT;
    if pointed {
        let (stop, mantissa) = scan_digits(
            b,
            dot + 1,
            end,
            whole,
            Ghost(s.subrange(start as int, dot as int)),
        );
        assert(b@.subrange(dot + 1, stop as int) =~= s.subrange(dot + 1, stop as int));
        let scale: usize = stop - dot - 1;
        if stop == end && (dot - start) + scale > 0 {
            match mantissa {
                Some(m) => Some(Decimal { negative, mantissa: m, scale }),
                None => None,
            }
        } else {
            None
        }
    } else {
        assert(s.subrange(start as int, dot as int) + Seq::<u8>::empty() =~= s.subrange(
            start as int,
            dot as int,
        ));
        if dot == end && dot - start > 0 {
            match whole {
                Some(m) => Some(Decimal { negative, mantissa: m, scale: 0 }),
                None => None,
            }
        } else {
            None
        }
    }
}

fn ends_with(b: &[u8], first: u8, second: u8) -> (found: bool)
    ensures
        found == has_unit(b@, first, second),
{
    let n = b.len();
    n >= 2 && b[n - 2] == first && b[n - 1] == second
}

/// Reads a length: a decimal, alone or followed by one of the units `px`,
/// `vw` and `vh`.
pub fn parse_val(val: &str) -> (r: Result<Val, StyleError>)
    ensures
        r == (match val_of(val.spec_bytes()) {
            Some(v) => Ok::<Val, StyleError>(v),
            None => Err::<Val, StyleError>(StyleError::UnsupportedVal),
        }),
{
    let b = val.as_bytes();
    let n = b.len();
    assert(b@.take(n as int) =~= b@);
    if let Some(d) = parse_decimal(b, n) {
        return Ok(Val::Px(d));
    }
    if n < 2 {
        return Err(StyleError::UnsupportedVal);
    }
    assert(b@.take(n - 2) =~= b@.subrange(0, n - 2));
    let number = parse_decimal(b, n - 2);
    if ends_with(b, LOWER_P, LOWER_X) {
        if let Some(d) = number {
            return Ok(Val::Px(d));
        }
    }
    if ends_with(b, LOWER_V, LOWER_W) {
        if let Some(d) = number {
            return Ok(Val::Vw(d));
        }
    }
    if ends_with(b, LOWER_V, LOWER_H) {
        if let Some(d) = number {
            return Ok(Val::Vh(d));
        }
    }
    Err(StyleError::UnsupportedVal)
}

fn hex_digit_value(b: u8) -> (r: Option<u8>)
    ensures
        r == hex_digit(b),
{
    if DIGIT_0 <= b && b <= DIGIT_9 {
        Some(b - DIGIT_0)
    } else if UPPER_A <= b && b <= UPPER_F {
        Some(b - UPPER_A + 10)
    } else if LOWER_A <= b && b <= LOWER_F {
        Some(b - LOWER_A + 10)
    } else {
        None
    }
}

fn hex_pair_value(high: u8, low: u8) -> (r: Option<u8>)
    ensures
        r == hex_pair(high, low),
{
    match (hex_digit_value(high), hex_digit_value(low)) {
        (Some(h), Some(l)) => Some(16 * h + l),
        _ => None,
    }
}

fn rgba(red: Option<u8>, green: Option<u8>, blue: Option<u8>, alpha: Option<u8>) -> (r: Option<
    Color,
>)
    ensures
        r == rgba_of(red, green, blue, alpha),
{
    match (red, green, blue, alpha) {
        (Some(r), Some(g), Some(b), Some(a)) => Some(
            Color { red: r, green: g, blue: b, alpha: a },
        ),
        _ => None,
    }
}

/// Reads a hexadecimal colour: `RGB`, `RGBA`, `RRGGBB` or `RRGGBBAA`, with or
/// without a leading `#`.
pub fn parse_hex_color(hex: &str) -> (r: Result<Color, StyleError>)
    ensures
        r == (match hex_color(hex.spec_bytes()) {
            Some(c) => Ok::<Color, StyleError>(c),
            None => Err::<Color, StyleError>(StyleError::UnsupportedColor),
        }),
{
    let b = hex.as_bytes();
    let o: usize = if b.len() > 0 && b[0] == HASH { 1 } else { 0 };
    let n: usize = b.len() - o;
    let ghost h = if o == 1 { b@.skip(1) } else { b@ };
    assert(forall|i: int| 0 <= i < n ==> h[i] == b@[o + i]);
    let color = if n == 3 {
        rgba(
            hex_pair_value(b[o], b[o]),
            hex_pair_value(b[o + 1], b[o + 1]),
            hex_pair_value(b[o + 2], b[o + 2]),
            Some(255),
        )
    } else if n == 4 {
        rgba(
            hex_pair_value(b[o], b[o]),
            hex_pair_value(b[o + 1], b[o + 1]),
            hex_pair_value(b[o + 2], b[o + 2]),
            hex_pair_value(b[o + 3], b[o + 3]),
        )
    } else if n == 6 {
        rgba(
            hex_pair_value(b[o], b[o + 1]),
            hex_pair_value(b[o + 2], b[o + 3]),
            hex_pair_value(b[o + 4], b[o + 5]),
            Some(255),
        )
    } else if n == 8 {
        rgba(
            hex_pair_value(b[o], b[o + 1]),
            hex_pair_value(b[o + 2], b[o + 3]),
            hex_pair_value(b[o + 4], b[o + 5]),
            hex_pair_value(b[o + 6], b[o + 7]),
        )
    } else {
        None
    };
    match color {
        Some(c) => Ok(c),
        None => Err(StyleError::UnsupportedColor),
    }
}

fn length_attribute(value: &str) -> (r: Result<Val, StyleError>)
    ensures
        r == (match val_of(encode_utf8(value@)) {
            Some(v) => Ok::<Val, StyleError>(v),
            None => Err::<Val, StyleError>(StyleError::UnsupportedVal),
        }),
{
    parse_val(value)
}

/// Sets the attribute `name` of `style` to `value`. An attribute that is not
/// supported leaves the style as it was.
pub fn set_style_attribute(name: &str, value: &str, style: &mut Style) -> (r: Result<
    (),
    StyleError,
>)
    ensures
        match styled(*old(style), name@, value@) {
            Ok(s) => r is Ok && *final(style) == s,
            Err(e) => r == Err::<(), StyleError>(e) && *final(style) == *old(style),
        },
{
    if str_eq(name, "display") && str_eq(value, "flex") {
        style.display = Display::Flex;
    } else if str_eq(name, "display") && str_eq(value, "grid") {
        style.display = Display::Grid;
    } else if str_eq(name, "display") && str_eq(value, "none") {
        style.display = Display::Hidden;
    } else if str_eq(name, "position") && str_eq(value, "relative") {
        style.position_type = PositionType::Relative;
    } else if str_eq(name, "position") && str_eq(value, "absolute") {
        style.position_type = PositionType::Absolute;
    } else if str_eq(name, "flex-direction") && str_eq(value, "column") {
        style.flex_direction = FlexDirection::Column;
    } else if str_eq(name, "background-color") {
        match parse_hex_color(value) {
            Ok(color) => {
                style.background_color = color;
            },
            Err(e) => {
                return Err(e);
            },
        }
    } else if str_eq(name, "padding") {
        match length_attribute(value) {
            Ok(v) => {
                style.padding = UiRect::all(v);
            },
            Err(e) => {
                return Err(e);
            },
        }
    } else if str_eq(name, "width") {
        match length_attribute(value) {
            Ok(v) => {
                style.width = v;
            },
            Err(e) => {
                return Err(e);
            },
        }
    } else if str_eq(name, "height") {
        match length_attribute(value) {
            Ok(v) => {
                style.height = v;
            },
            Err(e) => {
                return Err(e);
            },
        }
    } else if str_eq(name, "justify-content") && str_eq(value, "space-between") {
        style.justify_content = JustifyContent::SpaceBetween;
    } else if str_eq(name, "align-content") && str_eq(value, "space-between") {
        style.align_content = AlignContent::SpaceBetween;
    } else {
        return Err(StyleError::UnsupportedAttribute);
    }
    Ok(())
}

/// Resolves the static attributes of a template element, in order, on the
/// initial style.
pub fn parse_style_attributes(attributes: &Vec<TemplateAttribute>) -> (r: Result<
    Style,
    StyleError,
>)
    ensures
        r == styled_all(attributes@),
{
    let mut style = Style::default();
    let mut i: usize = 0;
    assert(attributes@.take(0) =~= Seq::<TemplateAttribute>::empty());
    while i < attributes.len()
        invariant
            i <= attributes@.len(),
            styled_all(attributes@.take(i as int)) == Ok::<Style, StyleError>(style),
        decreases attributes@.len() - i,
    {
        proof {
            let next = attributes@.take(i + 1);
            assert(next.drop_last() =~= attributes@.take(i as int));
            assert(next.last() == attributes@[i as int]);
        }
        match &attributes[i] {
            TemplateAttribute::Static { name, value } => {
                match set_style_attribute(name.as_str(), value.as_str(), &mut style) {
                    Ok(()) => {},
                    Err(e) => {
                        proof {
                            lemma_rejection_stays(attributes@, i + 1);
                        }
                        return Err(e);
                    },
                }
            },
            TemplateAttribute::Dynamic { .. } => {},
        }
        i += 1;
    }
    assert(attributes@.take(i as int) =~= attributes@);
    Ok(style)
}

/// Once a prefix of the attributes is rejected, so is the whole list, for
/// the same reason.
proof fn lemma_rejection_stays(attributes: Seq<TemplateAttribute>, n: int)
    requires
        0 <= n <= attributes.len(),
        styled_all(attributes.take(n)) is Err,
    ensures
        styled_all(attributes) == styled_all(attributes.take(n)),
    decreases attributes.len() - n,
{
    if n < attributes.len() {
        let next = attributes.take(n + 1);
        assert(next.drop_last() =~= attributes.take(n));
        lemma_rejection_stays(attributes, n + 1);
    } else {
        assert(attributes.take(n) =~= attributes);
    }
}

} // verus!
