//! Color themes for the writing environment.

use vstd::prelude::*;

verus! {

/// An sRGB color with alpha, each channel a byte.
#[derive(Clone, Copy, Debug, PartialEq, Eq, Structural)]
pub struct Color {
    pub r: u8,
    pub g: u8,
    pub b: u8,
    pub a: u8,
}

impl Color {
    /// The opaque color with channels `r`, `g`, `b`.
    pub open spec fn rgb(r: u8, g: u8, b: u8) -> Color {
        Color { r, g, b, a: 255 }
    }

    pub fn from_rgb(r: u8, g: u8, b: u8) -> (c: Color)
        ensures
            c == Color::rgb(r, g, b),
    {
        Color { r, g, b, a: 255 }
    }

    pub fn white() -> (c: Color)
        ensures
            c == Color::rgb(255, 255, 255),
    {
        Color::from_rgb(255, 255, 255)
    }

    /// The perceived brightness of the color, scaled by 1000: the sum of
    /// 299 times red, 587 times green and 114 times blue.
    pub open spec fn luma_milli(self) -> int {
        299 * self.r + 587 * self.g + 114 * self.b
    }

    /// Whether the color counts as light: its brightness is above 128.
    pub open spec fn is_light_spec(self) -> bool {
        self.luma_milli() > 128_000
    }

    pub fn is_light(&self) -> (r: bool)
        ensures
            r == self.is_light_spec(),
    {
        let l: u32 = 299 * (self.r as u32) + 587 * (self.g as u32) + 114 * (self.b as u32);
        l > 128_000
    }
}

/// A color theme: the background, the paper that sits on it, the text,
/// and the chrome around the writing area.
#[derive(Clone, Debug)]
pub struct Theme {
    pub name: String,
    /// Background (full-screen layer).
    pub bg_color: Color,
    /// Paper layer (foreground, sits on top of the background).
    pub paper_color: Color,
    /// How opaque the paper is, in percent (0 to 100).
    pub paper_opacity_percent: u8,
    pub text_color: Color,
    pub selection_color: Color,
    pub cursor_color: Color,
    /// Toolbars, tabs and dialogs.
    pub toolbar_bg: Color,
}

/// What a theme holds, as plain values.
pub struct ThemeView {
    pub name: Seq<char>,
    pub bg_color: Color,
    pub paper_color: Color,
    pub paper_opacity_percent: u8,
    pub text_color: Color,
    pub selection_color: Color,
    pub cursor_color: Color,
    pub toolbar_bg: Color,
}

impl View for Theme {
    type V = ThemeView;

    open spec fn view(&self) -> ThemeView {
        ThemeView {
            name: self.name@,
            bg_color: self.bg_color,
            paper_color: self.paper_color,
            paper_opacity_percent: self.paper_opacity_percent,
            text_color: self.text_color,
            selection_color: self.selection_color,
            cursor_color: self.cursor_color,
            toolbar_bg: self.toolbar_bg,
        }
    }
}

/// The theme named `name` with the given colors.
pub open spec fn theme_view(
    name: Seq<char>,
    bg: Color,
    paper: Color,
    opacity: u8,
    text: Color,
    toolbar: Color,
    selection: Color,
    cursor: Color,
) -> ThemeView {
    ThemeView {
        name,
        bg_color: bg,
        paper_color: paper,
        paper_opacity_percent: opacity,
        text_color: text,
        selection_color: selection,
        cursor_color: cursor,
        toolbar_bg: toolbar,
    }
}

pub open spec fn night_owl_view() -> ThemeView {
    theme_view(
        "Night Owl"@,
        Color::rgb(17, 21, 28),
        Color::rgb(255, 255, 255),
        92,
        Color::rgb(30, 35, 48),
        Color::rgb(15, 18, 25),
        Color::rgb(84, 109, 160),
        Color::rgb(84, 109, 160),
    )
}

pub open spec fn solarized_dark_view() -> ThemeView {
    theme_view(
        "Solarized Dark"@,
        Color::rgb(0, 43, 54),
        Color::rgb(255, 255, 255),
        90,
        Color::rgb(10, 55, 68),
        Color::rgb(0, 33, 44),
        Color::rgb(42, 161, 152),
        Color::rgb(181, 137, 0),
    )
}

pub open spec fn solarized_light_view() -> ThemeView {
    theme_view(
        "Solarized Light"@,
        Color::rgb(253, 246, 227),
        Color::rgb(238, 232, 213),
        100,
        Color::rgb(88, 110, 117),
        Color::rgb(238, 232, 213),
        Color::rgb(147, 161, 161),
        Color::rgb(88, 110, 117),
    )
}

pub open spec fn typewriter_view() -> ThemeView {
    theme_view(
        "Typewriter"@,
        Color::rgb(101, 76, 40),
        Color::rgb(250, 245, 230),
        100,
        Color::rgb(42, 30, 15),
        Color::rgb(80, 58, 28),
        Color::rgb(160, 130, 80),
        Color::rgb(42, 30, 15),
    )
}

pub open spec fn forest_view() -> ThemeView {
    theme_view(
        "Forest"@,
        Color::rgb(20, 38, 25),
        Color::rgb(255, 255, 255),
        93,
        Color::rgb(25, 50, 30),
        Color::rgb(15, 28, 18),
        Color::rgb(60, 130, 70),
        Color::rgb(60, 130, 70),
    )
}

pub open spec fn midnight_blue_view() -> ThemeView {
    theme_view(
        "Midnight Blue"@,
        Color::rgb(10, 12, 40),
        Color::rgb(255, 255, 255),
        93,
        Color::rgb(20, 25, 70),
        Color::rgb(8, 10, 30),
        Color::rgb(60, 90, 160),
        Color::rgb(80, 120, 220),
    )
}

pub open spec fn paper_white_view() -> ThemeView {
    theme_view(
        "Paper White"@,
        Color::rgb(200, 198, 192),
        Color::rgb(255, 253, 245),
        100,
        Color::rgb(35, 35, 35),
        Color::rgb(215, 213, 208),
        Color::rgb(180, 200, 230),
        Color::rgb(30, 30, 30),
    )
}

pub open spec fn dracula_view() -> ThemeView {
    theme_view(
        "Dracula"@,
        Color::rgb(40, 42, 54),
        Color::rgb(255, 255, 255),
        92,
        Color::rgb(55, 57, 75),
        Color::rgb(33, 34, 44),
        Color::rgb(139, 92, 246),
        Color::rgb(80, 250, 123),
    )
}

/// The built-in themes, in the order they are offered.
pub open spec fn preset_views() -> Seq<ThemeView> {
    seq![
        night_owl_view(),
        solarized_dark_view(),
        solarized_light_view(),
        typewriter_view(),
        forest_view(),
        midnight_blue_view(),
        paper_white_view(),
        dracula_view(),
    ]
}

/// The index of the first built-in theme named `name`, if any.
pub open spec fn preset_index(name: Seq<char>) -> Option<int> {
    if exists|i: int| 0 <= i < preset_views().len() && #[trigger] preset_views()[i].name == name {
        Some(
            choose|i: int|
                0 <= i < preset_views().len() && #[trigger] preset_views()[i].name == name && forall|j: int|
                    0 <= j < i ==> preset_views()[j].name != name,
        )
    } else {
        None
    }
}

impl Theme {
    fn make(
        name: &str,
        bg: Color,
        paper: Color,
        opacity: u8,
        text: Color,
        toolbar: Color,
        selection: Color,
        cursor: Color,
    ) -> (t: Theme)
        ensures
            t@ == theme_view(name@, bg, paper, opacity, text, toolbar, selection, cursor),
    {
        Theme {
            name: String::from_str(name),
            bg_color: bg,
            paper_color: paper,
            paper_opacity_percent: opacity,
            text_color: text,
            selection_color: selection,
            cursor_color: cursor,
            toolbar_bg: toolbar,
        }
    }

    pub fn night_owl() -> (t: Theme)
        ensures
            t@ == night_owl_view(),
    {
        Theme::make(
            "Night Owl",
            Color::from_rgb(17, 21, 28),
            Color::white(),
            92,
            Color::from_rgb(30, 35, 48),
            Color::from_rgb(15, 18, 25),
            Color::from_rgb(84, 109, 160),
            Color::from_rgb(84, 109, 160),
        )
    }

    pub fn solarized_dark() -> (t: Theme)
        ensures
            t@ == solarized_dark_view(),
    {
        Theme::make(
            "Solarized Dark",
            Color::from_rgb(0, 43, 54),
            Color::white(),
            90,
            Color::from_rgb(10, 55, 68),
            Color::from_rgb(0, 33, 44),
            Color::from_rgb(42, 161, 152),
            Color::from_rgb(181, 137, 0),
        )
    }

    pub fn solarized_light() -> (t: Theme)
        ensures
            t@ == solarized_light_view(),
    {
        Theme::make(
            "Solarized Light",
            Color::from_rgb(253, 246, 227),
            Color::from_rgb(238, 232, 213),
            100,
            Color::from_rgb(88, 110, 117),
            Color::from_rgb(238, 232, 213),
            Color::from_rgb(147, 161, 161),
            Color::from_rgb(88, 110, 117),
        )
    }

    pub fn typewriter() -> (t: Theme)
        ensures
            t@ == typewriter_view(),
    {
        Theme::make(
            "Typewriter",
            Color::from_rgb(101, 76, 40),
            Color::from_rgb(250, 245, 230),
            100,
            Color::from_rgb(42, 30, 15),
            Color::from_rgb(80, 58, 28),
            Color::from_rgb(160, 130, 80),
            Color::from_rgb(42, 30, 15),
        )
    }

    pub fn forest() -> (t: Theme)
        ensures
            t@ == forest_view(),
    {
        Theme::make(
            "Forest",
            Color::from_rgb(20, 38, 25),
            Color::white(),
            93,
            Color::from_rgb(25, 50, 30),
            Color::from_rgb(15, 28, 18),
            Color::from_rgb(60, 130, 70),
            Color::from_rgb(60, 130, 70),
        )
    }

    pub fn midnight_blue() -> (t: Theme)
        ensures
            t@ == midnight_blue_view(),
    {
        Theme::make(
            "Midnight Blue",
            Color::from_rgb(10, 12, 40),
            Color::white(),
            93,
            Color::from_rgb(20, 25, 70),
            Color::from_rgb(8, 10, 30),
            Color::from_rgb(60, 90, 160),
            Color::from_rgb(80, 120, 220),
        )
    }

    pub fn paper_white() -> (t: Theme)
        ensures
            t@ == paper_white_view(),
    {
        Theme::make(
            "Paper White",
            Color::from_rgb(200, 198, 192),
            Color::from_rgb(255, 253, 245),
            100,
            Color::from_rgb(35, 35, 35),
            Color::from_rgb(215, 213, 208),
            Color::from_rgb(180, 200, 230),
            Color::from_rgb(30, 30, 30),
        )
    }

    pub fn dracula() -> (t: Theme)
        ensures
            t@ == dracula_view(),
    {
        Theme::make(
            "Dracula",
            Color::from_rgb(40, 42, 54),
            Color::white(),
            92,
            Color::from_rgb(55, 57, 75),
            Color::from_rgb(33, 34, 44),
            Color::from_rgb(139, 92, 246),
            Color::from_rgb(80, 250, 123),
        )
    }

    /// All available theme presets.
    pub fn presets() -> (v: Vec<Theme>)
        ensures
            v@.map_values(|t: Theme| t@) == preset_views(),
    {
        let v = vec![
            Theme::night_owl(),
            Theme::solarized_dark(),
            Theme::solarized_light(),
            Theme::typewriter(),
            Theme::forest(),
            Theme::midnight_blue(),
            Theme::paper_white(),
            Theme::dracula(),
        ];
        assert(v@.map_values(|t: Theme| t@) =~= preset_views());
        v
    }

    /// The built-in theme named `name`, if there is one.
    pub fn by_name(name: &str) -> (r: Option<Theme>)
        ensures
            match preset_index(name@) {
                Some(i) => r matches Some(t) && t@ == preset_views()[i],
                None => r is None,
            },
    {
        let mut presets = Theme::presets();
        let target = String::from_str(name);
        let mut i: usize = 0;
        let ghost views = preset_views();
        while i < presets.len()
            invariant
                presets@.map_values(|t: Theme| t@) == views,
                views == preset_views(),
                target@ == name@,
                i <= presets.len(),
                forall|j: int| 0 <= j < i ==> views[j].name != name@,
            decreases presets.len() - i,
        {
            assert(presets@[i as int]@ == views[i as int]);
            if presets[i].name == target {
                let t = presets.remove(i);
                assert(preset_views()[i as int].name == name@);
                assert(preset_index(name@) == Some(i as int)) by {
                    let k = choose|k: int|
                        0 <= k < preset_views().len() && #[trigger] preset_views()[k].name == name@
                            && forall|j: int| 0 <= j < k ==> preset_views()[j].name != name@;
                    if k < i {
                        assert(views[k].name != name@);
                    } else if k > i {
                        assert(preset_views()[i as int].name == name@);
                    }
                }
                return Some(t);
            }
            i += 1;
        }
        None
    }

    /// A readable text color for toolbar and dialog backgrounds: dark text
    /// on light toolbars, light text on dark ones.
    pub fn ui_text_color(&self) -> (c: Color)
        ensures
            c == if self.toolbar_bg.is_light_spec() {
                Color::rgb(40, 40, 40)
            } else {
                Color::rgb(210, 210, 210)
            },
    {
        if self.toolbar_bg.is_light() {
            Color::from_rgb(40, 40, 40)
        } else {
            Color::from_rgb(210, 210, 210)
        }
    }
}

impl Default for Theme {
    fn default() -> (t: Theme)
        ensures
            t@ == night_owl_view(),
    {
        Theme::night_owl()
    }
}

/// The theme to use for the name kept in the settings: the built-in theme
/// of that name, else the default one.
pub fn theme_for_name(name: &str) -> (t: Theme)
    ensures
        match preset_index(name@) {
            Some(i) => t@ == preset_views()[i],
            None => t@ == night_owl_view(),
        },
{
    match Theme::by_name(name) {
        Some(t) => t,
        None => Theme::default(),
    }
}

/// The built-in themes have distinct names.
proof fn lemma_preset_names_distinct()
    ensures
        forall|i: int, j: int|
            0 <= i < j < preset_views().len() ==> #[trigger] preset_views()[i].name != #[trigger] preset_views()[j].name,
{
    reveal_strlit("Night Owl");
    reveal_strlit("Solarized Dark");
    reveal_strlit("Solarized Light");
    reveal_strlit("Typewriter");
    reveal_strlit("Forest");
    reveal_strlit("Midnight Blue");
    reveal_strlit("Paper White");
    reveal_strlit("Dracula");
    let v = preset_views();
    assert(v[0].name.len() == 9);
    assert(v[1].name.len() == 14);
    assert(v[2].name.len() == 15);
    assert(v[3].name.len() == 10);
    assert(v[4].name.len() == 6);
    assert(v[5].name.len() == 13);
    assert(v[6].name.len() == 11);
    assert(v[7].name.len() == 7);
    assert forall|i: int, j: int| 0 <= i < j < v.len() implies #[trigger] v[i].name != #[trigger] v[j].name by {
        assert(v[i].name.len() != v[j].name.len());
    }
}

/// Looking up the name of any built-in theme finds that theme.
pub proof fn lemma_presets_found_by_name(i: int)
    requires
        0 <= i < preset_views().len(),
    ensures
        preset_index(preset_views()[i].name) == Some(i),
{
    lemma_preset_names_distinct();
    let name = preset_views()[i].name;
    assert(exists|k: int| 0 <= k < preset_views().len() && #[trigger] preset_views()[k].name == name);
    let k = choose|k: int|
        0 <= k < preset_views().len() && #[trigger] preset_views()[k].name == name && forall|j: int|
            0 <= j < k ==> preset_views()[j].name != name;
    assert(0 <= k < preset_views().len() && preset_views()[k].name == name && forall|j: int|
        0 <= j < k ==> preset_views()[j].name != name) by {
        assert(forall|j: int| 0 <= j < i ==> preset_views()[j].name != name);
    }
    if k < i {
        assert(preset_views()[k].name != preset_views()[i].name);
    } else if k > i {
        assert(preset_views()[i].name != preset_views()[k].name);
    }
}

} // verus!
