//! Styles, utility classes and themes.

use crate::props::{put, Entries, Props};
use crate::text::{put_char, put_str, string_of, trim, trim_vec};
use vstd::prelude::*;
use vstd::string::StringExecFns;

verus! {

/// A set of style properties, with the styles of its pseudo classes and media queries.
#[derive(Debug, PartialEq, Eq)]
pub struct Style {
    /// The properties, by name.
    pub properties: Props,
    /// The styles of pseudo classes such as `:hover`, one for each pseudo class.
    pub pseudo_classes: Vec<(String, Style)>,
    /// The styles under media queries, in the order in which they were added.
    pub media_queries: Vec<(String, Style)>,
}

/// The first index at or after `from` whose name is `k`; the length where there is none.
pub open spec fn name_from(m: Seq<(String, Style)>, k: Seq<char>, from: int) -> int
    decreases m.len() - from,
{
    if from < 0 || from >= m.len() {
        m.len() as int
    } else if m[from].0@ == k {
        from
    } else {
        name_from(m, k, from + 1)
    }
}

/// Whether `after` is `before` with `style` under the name `k`: in the place where
/// `k` stood before, or at the end where it did not stand.
pub open spec fn is_with(
    after: Seq<(String, Style)>,
    before: Seq<(String, Style)>,
    k: Seq<char>,
    style: Style,
) -> bool {
    let i = name_from(before, k, 0);
    &&& after.len() == if i < before.len() {
        before.len()
    } else {
        before.len() + 1
    }
    &&& 0 <= i < after.len()
    &&& after[i].0@ == k
    &&& after[i].1 == style
    &&& forall|j: int| 0 <= j < before.len() && j != i ==> after[j] == before[j]
}

impl Style {
    /// A style without properties.
    pub fn new() -> (r: Self)
        ensures
            r.properties@ == Seq::<(Seq<char>, Seq<char>)>::empty(),
            r.pseudo_classes@.len() == 0,
            r.media_queries@.len() == 0,
    {
        Style { properties: Props::new(), pseudo_classes: Vec::new(), media_queries: Vec::new() }
    }

    /// This style with the property `name` set to `value`.
    pub fn property(self, name: &str, value: &str) -> (r: Self)
        ensures
            r.properties@ == put(self.properties@, name@, value@),
            r.pseudo_classes == self.pseudo_classes,
            r.media_queries == self.media_queries,
    {
        let mut s = self;
        s.properties.insert(String::from_str(name), String::from_str(value));
        s
    }

    /// `before` with `style` under `name`.
    fn with_pseudo(before: Vec<(String, Style)>, name: &str, style: Style) -> (r: Vec<
        (String, Style),
    >)
        ensures
            is_with(r@, before@, name@, style),
    {
        let mut list = before;
        let mut i: usize = 0;
        while i < list.len()
            invariant
                i <= list.len(),
                list@ == before@,
                name_from(before@, name@, 0) == name_from(before@, name@, i as int),
            decreases list.len() - i,
        {
            if crate::text::str_eq(list[i].0.as_str(), name) {
                list.set(i, (String::from_str(name), style));
                return list;
            }
            i += 1;
        }
        list.push((String::from_str(name), style));
        list
    }

    /// This style with `style` for the pseudo class `:hover`.
    pub fn hover(self, style: Style) -> (r: Self)
        ensures
            is_with(r.pseudo_classes@, self.pseudo_classes@, ":hover"@, style),
            r.properties == self.properties,
            r.media_queries == self.media_queries,
    {
        let Style { properties, pseudo_classes, media_queries } = self;
        Style {
            properties,
            pseudo_classes: Style::with_pseudo(pseudo_classes, ":hover", style),
            media_queries,
        }
    }

    /// This style with `style` for the pseudo class `:focus`.
    pub fn focus(self, style: Style) -> (r: Self)
        ensures
            is_with(r.pseudo_classes@, self.pseudo_classes@, ":focus"@, style),
            r.properties == self.properties,
            r.media_queries == self.media_queries,
    {
        let Style { properties, pseudo_classes, media_queries } = self;
        Style {
            properties,
            pseudo_classes: Style::with_pseudo(pseudo_classes, ":focus", style),
            media_queries,
        }
    }

    /// This style with `style` added under the media query `query`.
    pub fn media(self, query: &str, style: Style) -> (r: Self)
        ensures
            r.media_queries@.len() == self.media_queries@.len() + 1,
            r.media_queries@.drop_last() == self.media_queries@,
            r.media_queries@.last().0@ == query@,
            r.media_queries@.last().1 == style,
            r.properties == self.properties,
            r.pseudo_classes == self.pseudo_classes,
    {
        let mut s = self;
        let ghost before = s.media_queries@;
        s.media_queries.push((String::from_str(query), style));
        assert(s.media_queries@.drop_last() =~= before);
        s
    }
}

/// Utility classes in the manner of Tailwind.
#[derive(Debug, Clone, Copy, PartialEq, Eq)]
pub enum UtilityClass {
    Flex,
    Grid,
    Block,
    Inline,
    Hidden,
    FlexRow,
    FlexCol,
    JustifyCenter,
    JustifyBetween,
    ItemsCenter,
    ItemsStart,
    /// Padding, in quarters of a rem.
    P(u8),
    /// Margin, in quarters of a rem.
    M(u8),
    TextSm,
    TextBase,
    TextLg,
    TextXl,
    FontBold,
    FontMedium,
    BgRed500,
    BgBlue500,
    BgGreen500,
    TextWhite,
    TextGray800,
    WAuto,
    WFull,
    HAuto,
    HFull,
    Border,
    Border2,
    Rounded,
    RoundedLg,
    Shadow,
    ShadowLg,
    Opacity50,
}

/// The decimal digit `d` as a character.
pub open spec fn digit(d: int) -> char {
    if d == 0 {
        '0'
    } else if d == 1 {
        '1'
    } else if d == 2 {
        '2'
    } else if d == 3 {
        '3'
    } else if d == 4 {
        '4'
    } else if d == 5 {
        '5'
    } else if d == 6 {
        '6'
    } else if d == 7 {
        '7'
    } else if d == 8 {
        '8'
    } else {
        '9'
    }
}

/// `n` quarters as a decimal number: the whole part, and the fraction where there is one.
pub open spec fn quarters_text(n: u8) -> Seq<char> {
    let whole = n as int / 4;
    let digits = if whole < 10 {
        seq![digit(whole)]
    } else {
        seq![digit(whole / 10), digit(whole % 10)]
    };
    let part = n as int % 4;
    if part == 0 {
        digits
    } else if part == 1 {
        digits + seq!['.', '2', '5']
    } else if part == 2 {
        digits + seq!['.', '5']
    } else {
        digits + seq!['.', '7', '5']
    }
}

/// The declaration that a utility class stands for.
pub open spec fn utility_css(class: UtilityClass) -> Seq<char> {
    match class {
        UtilityClass::Flex => "display: flex;"@,
        UtilityClass::Grid => "display: grid;"@,
        UtilityClass::Block => "display: block;"@,
        UtilityClass::Inline => "display: inline;"@,
        UtilityClass::Hidden => "display: none;"@,
        UtilityClass::FlexRow => "flex-direction: row;"@,
        UtilityClass::FlexCol => "flex-direction: column;"@,
        UtilityClass::JustifyCenter => "justify-content: center;"@,
        UtilityClass::JustifyBetween => "justify-content: space-between;"@,
        UtilityClass::ItemsCenter => "align-items: center;"@,
        UtilityClass::ItemsStart => "align-items: flex-start;"@,
        UtilityClass::P(n) => "padding: "@ + quarters_text(n) + "rem;"@,
        UtilityClass::M(n) => "margin: "@ + quarters_text(n) + "rem;"@,
        UtilityClass::TextSm => "font-size: 0.875rem;"@,
        UtilityClass::TextBase => "font-size: 1rem;"@,
        UtilityClass::TextLg => "font-size: 1.125rem;"@,
        UtilityClass::TextXl => "font-size: 1.25rem;"@,
        UtilityClass::FontBold => "font-weight: bold;"@,
        UtilityClass::FontMedium => "font-weight: 500;"@,
        UtilityClass::BgRed500 => "background-color: #ef4444;"@,
        UtilityClass::BgBlue500 => "background-color: #3b82f6;"@,
        UtilityClass::BgGreen500 => "background-color: #10b981;"@,
        UtilityClass::TextWhite => "color: white;"@,
        UtilityClass::TextGray800 => "color: #1f2937;"@,
        UtilityClass::WAuto => "width: auto;"@,
        UtilityClass::WFull => "width: 100%;"@,
        UtilityClass::HAuto => "height: auto;"@,
        UtilityClass::HFull => "height: 100%;"@,
        UtilityClass::Border => "border: 1px solid #e5e7eb;"@,
        UtilityClass::Border2 => "border: 2px solid #e5e7eb;"@,
        UtilityClass::Rounded => "border-radius: 0.25rem;"@,
        UtilityClass::RoundedLg => "border-radius: 0.5rem;"@,
        UtilityClass::Shadow => "box-shadow: 0 1px 3px 0 rgba(0, 0, 0, 0.1);"@,
        UtilityClass::ShadowLg => "box-shadow: 0 10px 15px -3px rgba(0, 0, 0, 0.1);"@,
        UtilityClass::Opacity50 => "opacity: 0.5;"@,
    }
}

/// The decimal digit `d` as a character.
fn digit_char(d: u8) -> (c: char)
    requires
        d < 10,
    ensures
        c == digit(d as int),
{
    if d == 0 {
        '0'
    } else if d == 1 {
        '1'
    } else if d == 2 {
        '2'
    } else if d == 3 {
        '3'
    } else if d == 4 {
        '4'
    } else if d == 5 {
        '5'
    } else if d == 6 {
        '6'
    } else if d == 7 {
        '7'
    } else if d == 8 {
        '8'
    } else {
        '9'
    }
}

/// Appends `n` quarters as a decimal number to `out`.
fn put_quarters(out: &mut Vec<char>, n: u8)
    ensures
        final(out)@ == old(out)@ + quarters_text(n),
{
    let whole: u8 = n / 4;
    if whole < 10 {
        put_char(out, digit_char(whole));
    } else {
        put_char(out, digit_char(whole / 10));
        put_char(out, digit_char(whole % 10));
    }
    let part: u8 = n % 4;
    if part == 1 {
        put_char(out, '.');
        put_char(out, '2');
        put_char(out, '5');
    } else if part == 2 {
        put_char(out, '.');
        put_char(out, '5');
    } else if part == 3 {
        put_char(out, '.');
        put_char(out, '7');
        put_char(out, '5');
    }
    assert(out@ =~= old(out)@ + quarters_text(n));
}

impl UtilityClass {
    /// The declaration that this class stands for.
    pub fn to_css(&self) -> (r: String)
        ensures
            r@ == utility_css(*self),
    {
        match self {
            UtilityClass::Flex => String::from_str("display: flex;"),
            UtilityClass::Grid => String::from_str("display: grid;"),
            UtilityClass::Block => String::from_str("display: block;"),
            UtilityClass::Inline => String::from_str("display: inline;"),
            UtilityClass::Hidden => String::from_str("display: none;"),
            UtilityClass::FlexRow => String::from_str("flex-direction: row;"),
            UtilityClass::FlexCol => String::from_str("flex-direction: column;"),
            UtilityClass::JustifyCenter => String::from_str("justify-content: center;"),
            UtilityClass::JustifyBetween => String::from_str("justify-content: space-between;"),
            UtilityClass::ItemsCenter => String::from_str("align-items: center;"),
            UtilityClass::ItemsStart => String::from_str("align-items: flex-start;"),
            UtilityClass::P(n) => {
                let mut out: Vec<char> = Vec::new();
                put_str(&mut out, "padding: ");
                put_quarters(&mut out, *n);
                put_str(&mut out, "rem;");
                assert(out@ =~= "padding: "@ + quarters_text(*n) + "rem;"@);
                string_of(&out)
            },
            UtilityClass::M(n) => {
                let mut out: Vec<char> = Vec::new();
                put_str(&mut out, "margin: ");
                put_quarters(&mut out, *n);
                put_str(&mut out, "rem;");
                assert(out@ =~= "margin: "@ + quarters_text(*n) + "rem;"@);
                string_of(&out)
            },
            UtilityClass::TextSm => String::from_str("font-size: 0.875rem;"),
            UtilityClass::TextBase => String::from_str("font-size: 1rem;"),
            UtilityClass::TextLg => String::from_str("font-size: 1.125rem;"),
            UtilityClass::TextXl => String::from_str("font-size: 1.25rem;"),
            UtilityClass::FontBold => String::from_str("font-weight: bold;"),
            UtilityClass::FontMedium => String::from_str("font-weight: 500;"),
            UtilityClass::BgRed500 => String::from_str("background-color: #ef4444;"),
            UtilityClass::BgBlue500 => String::from_str("background-color: #3b82f6;"),
            UtilityClass::BgGreen500 => String::from_str("background-color: #10b981;"),
            UtilityClass::TextWhite => String::from_str("color: white;"),
            UtilityClass::TextGray800 => String::from_str("color: #1f2937;"),
            UtilityClass::WAuto => String::from_str("width: auto;"),
            UtilityClass::WFull => String::from_str("width: 100%;"),
            UtilityClass::HAuto => String::from_str("height: auto;"),
            UtilityClass::HFull => String::from_str("height: 100%;"),
            UtilityClass::Border => String::from_str("border: 1px solid #e5e7eb;"),
            UtilityClass::Border2 => String::from_str("border: 2px solid #e5e7eb;"),
            UtilityClass::Rounded => String::from_str("border-radius: 0.25rem;"),
            UtilityClass::RoundedLg => String::from_str("border-radius: 0.5rem;"),
            UtilityClass::Shadow => String::from_str("box-shadow: 0 1px 3px 0 rgba(0, 0, 0, 0.1);"),
            UtilityClass::ShadowLg => String::from_str(
                "box-shadow: 0 10px 15px -3px rgba(0, 0, 0, 0.1);",
            ),
            UtilityClass::Opacity50 => String::from_str("opacity: 0.5;"),
        }
    }
}

/// Gathers utility classes and custom declarations into one style text.
#[derive(Debug, PartialEq, Eq)]
pub struct CssBuilder {
    classes: Vec<UtilityClass>,
    custom_styles: Vec<String>,
}

/// What a builder holds: its utility classes and its custom declarations, in order.
pub struct Gathered {
    pub classes: Seq<UtilityClass>,
    pub custom: Seq<Seq<char>>,
}

/// The declarations of the first `n` of `classes`, each followed by a space.
pub open spec fn classes_css(classes: Seq<UtilityClass>, n: int) -> Seq<char>
    decreases n,
{
    if n <= 0 {
        Seq::empty()
    } else {
        classes_css(classes, n - 1) + utility_css(classes[n - 1]) + seq![' ']
    }
}

/// The first `n` of `custom`, each followed by a space.
pub open spec fn custom_css(custom: Seq<Seq<char>>, n: int) -> Seq<char>
    decreases n,
{
    if n <= 0 {
        Seq::empty()
    } else {
        custom_css(custom, n - 1) + custom[n - 1] + seq![' ']
    }
}

/// The style text of `g`: the declarations of the classes, then the custom ones, each
/// followed by a space, without the white space at the two ends of the whole.
pub open spec fn built_css(g: Gathered) -> Seq<char> {
    trim(
        classes_css(g.classes, g.classes.len() as int) + custom_css(
            g.custom,
            g.custom.len() as int,
        ),
    )
}

impl View for CssBuilder {
    type V = Gathered;

    closed spec fn view(&self) -> Gathered {
        Gathered {
            classes: self.classes@,
            custom: Seq::new(self.custom_styles@.len(), |i: int| self.custom_styles@[i]@),
        }
    }
}

impl CssBuilder {
    /// A builder that holds nothing.
    pub fn new() -> (r: Self)
        ensures
            r@.classes == Seq::<UtilityClass>::empty(),
            r@.custom == Seq::<Seq<char>>::empty(),
    {
        let r = CssBuilder { classes: Vec::new(), custom_styles: Vec::new() };
        assert(r@.custom =~= Seq::<Seq<char>>::empty());
        r
    }

    /// This builder with `class` behind its classes.
    pub fn add(self, class: UtilityClass) -> (r: Self)
        ensures
            r@.classes == self@.classes.push(class),
            r@.custom == self@.custom,
    {
        let mut b = self;
        b.classes.push(class);
        b
    }

    /// This builder with `css` behind its custom declarations.
    pub fn custom(self, css: &str) -> (r: Self)
        ensures
            r@.classes == self@.classes,
            r@.custom == self@.custom.push(css@),
    {
        let mut b = self;
        b.custom_styles.push(String::from_str(css));
        assert(b@.custom =~= self@.custom.push(css@));
        b
    }

    /// The style text of what the builder holds.
    pub fn build(self) -> (r: String)
        ensures
            r@ == built_css(self@),
    {
        let mut out: Vec<char> = Vec::new();
        let mut i: usize = 0;
        assert(out@ =~= classes_css(self.classes@, 0));
        while i < self.classes.len()
            invariant
                i <= self.classes.len(),
                out@ == classes_css(self.classes@, i as int),
            decreases self.classes.len() - i,
        {
            let css = self.classes[i].to_css();
            put_str(&mut out, css.as_str());
            put_char(&mut out, ' ');
            i += 1;
        }
        let ghost first = out@;
        let mut k: usize = 0;
        assert(out@ =~= first + custom_css(self@.custom, 0));
        while k < self.custom_styles.len()
            invariant
                k <= self.custom_styles.len(),
                out@ == first + custom_css(self@.custom, k as int),
            decreases self.custom_styles.len() - k,
        {
            put_str(&mut out, self.custom_styles[k].as_str());
            put_char(&mut out, ' ');
            assert(self@.custom[k as int] == self.custom_styles@[k as int]@);
            assert(out@ =~= first + (custom_css(self@.custom, k as int) + self@.custom[k as int]
                + seq![' ']));
            k += 1;
        }
        string_of(&trim_vec(&out))
    }
}

/// A builder that holds nothing.
pub fn use_style() -> (r: CssBuilder)
    ensures
        r@.classes == Seq::<UtilityClass>::empty(),
        r@.custom == Seq::<Seq<char>>::empty(),
{
    CssBuilder::new()
}

/// The colors of a theme.
#[derive(Debug, PartialEq, Eq)]
pub struct Colors {
    pub primary: String,
    pub secondary: String,
    pub accent: String,
    pub background: String,
    pub surface: String,
    pub text_primary: String,
    pub text_secondary: String,
}

/// The spacing steps of a theme.
#[derive(Debug, PartialEq, Eq)]
pub struct Spacing {
    pub xs: String,
    pub sm: String,
    pub md: String,
    pub lg: String,
    pub xl: String,
}

/// The typography of a theme.
#[derive(Debug, PartialEq, Eq)]
pub struct Typography {
    pub font_family: String,
    /// Font sizes by name.
    pub sizes: Props,
    /// Font weights by name.
    pub weights: Props,
}

/// A theme: colors, spacing and typography.
#[derive(Debug, PartialEq, Eq)]
pub struct Theme {
    pub colors: Colors,
    pub spacing: Spacing,
    pub typography: Typography,
}

/// The font sizes of the default theme, by name.
pub open spec fn default_sizes() -> Entries {
    let m0: Entries = Seq::empty();
    let m1 = put(m0, "xs"@, "0.75rem"@);
    let m2 = put(m1, "sm"@, "0.875rem"@);
    let m3 = put(m2, "base"@, "1rem"@);
    let m4 = put(m3, "lg"@, "1.125rem"@);
    let m5 = put(m4, "xl"@, "1.25rem"@);
    put(m5, "2xl"@, "1.5rem"@)
}

/// The font weights of the default theme, by name.
pub open spec fn default_weights() -> Entries {
    let m0: Entries = Seq::empty();
    let m1 = put(m0, "normal"@, "400"@);
    let m2 = put(m1, "medium"@, "500"@);
    put(m2, "bold"@, "700"@)
}

/// Writes `value` under the new key `key`.
fn add_entry(m: &mut Props, key: &str, value: &str)
    ensures
        final(m)@ == put(old(m)@, key@, value@),
{
    m.insert(String::from_str(key), String::from_str(value));
}

impl Default for Theme {
    /// The default theme.
    fn default() -> (r: Self)
        ensures
            r.colors.primary@ == "#3b82f6"@,
            r.colors.secondary@ == "#6b7280"@,
            r.colors.accent@ == "#10b981"@,
            r.colors.background@ == "#ffffff"@,
            r.colors.surface@ == "#f9fafb"@,
            r.colors.text_primary@ == "#111827"@,
            r.colors.text_secondary@ == "#6b7280"@,
            r.spacing.xs@ == "0.25rem"@,
            r.spacing.sm@ == "0.5rem"@,
            r.spacing.md@ == "1rem"@,
            r.spacing.lg@ == "1.5rem"@,
            r.spacing.xl@ == "2rem"@,
            r.typography.font_family@ == "system-ui, -apple-system, sans-serif"@,
            r.typography.sizes@ == default_sizes(),
            r.typography.weights@ == default_weights(),
    {
        let mut sizes = Props::new();
        add_entry(&mut sizes, "xs", "0.75rem");
        add_entry(&mut sizes, "sm", "0.875rem");
        add_entry(&mut sizes, "base", "1rem");
        add_entry(&mut sizes, "lg", "1.125rem");
        add_entry(&mut sizes, "xl", "1.25rem");
        add_entry(&mut sizes, "2xl", "1.5rem");
        let mut weights = Props::new();
        add_entry(&mut weights, "normal", "400");
        add_entry(&mut weights, "medium", "500");
        add_entry(&mut weights, "bold", "700");
        Theme {
            colors: Colors {
                primary: String::from_str("#3b82f6"),
                secondary: String::from_str("#6b7280"),
                accent: String::from_str("#10b981"),
                background: String::from_str("#ffffff"),
                surface: String::from_str("#f9fafb"),
                text_primary: String::from_str("#111827"),
                text_secondary: String::from_str("#6b7280"),
            },
            spacing: Spacing {
                xs: String::from_str("0.25rem"),
                sm: String::from_str("0.5rem"),
                md: String::from_str("1rem"),
                lg: String::from_str("1.5rem"),
                xl: String::from_str("2rem"),
            },
            typography: Typography {
                font_family: String::from_str("system-ui, -apple-system, sans-serif"),
                sizes,
                weights,
            },
        }
    }
}

} // verus!
