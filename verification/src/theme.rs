//! Theme colors: named presets and RGB triples, with their ANSI
//! escape sequences.
//!
//! Loading a theme file and deciding where to look for one stay with
//! the caller; this module owns the rules: which preset names are
//! recognised (case-insensitively), what they stand for, and how a
//! color is rendered as an ANSI escape sequence.

use vstd::prelude::*;
use vstd::string::StrSliceExecFns;
use vstd::string::StringExecFns;

verus! {

/// A named preset color.
#[derive(Debug, Copy, Clone, PartialEq, Eq, Structural)]
pub enum PresetColor {
    Reset,
    FgReset,
    Invert,
    Red,
    Yellow,
    Blue,
    Green,
    Cyan,
    Magenta,
    White,
}

/// Why a color or theme was rejected.
#[derive(Debug, Copy, Clone, PartialEq, Eq, Structural)]
pub enum ThemeError {
    /// A preset color name is not one of the recognised aliases.
    UnknownColor,
}

/// The ANSI escape sequence of a preset color.
pub open spec fn preset_ansi(p: PresetColor) -> Seq<char> {
    match p {
        PresetColor::Reset => "\x1b[0m"@,
        PresetColor::FgReset => "\x1b[39m"@,
        PresetColor::Invert => "\x1b[7m"@,
        PresetColor::Red => "\x1b[31m"@,
        PresetColor::Yellow => "\x1b[33m"@,
        PresetColor::Blue => "\x1b[34m"@,
        PresetColor::Green => "\x1b[32m"@,
        PresetColor::Cyan => "\x1b[36m"@,
        PresetColor::Magenta => "\x1b[35m"@,
        PresetColor::White => "\x1b[37m"@,
    }
}

/// The RGB value of a preset color.
pub open spec fn preset_rgb_spec(p: PresetColor) -> (u8, u8, u8) {
    match p {
        PresetColor::Reset => (255, 255, 255),
        PresetColor::FgReset => (255, 255, 255),
        PresetColor::Invert => (255, 255, 255),
        PresetColor::Red => (205, 49, 49),
        PresetColor::Yellow => (229, 229, 16),
        PresetColor::Blue => (36, 114, 200),
        PresetColor::Green => (13, 188, 121),
        PresetColor::Cyan => (17, 168, 205),
        PresetColor::Magenta => (188, 63, 188),
        PresetColor::White => (229, 229, 229),
    }
}

/// Whether `x` reads as `y` ignoring ASCII case, where `y` is already
/// lower case: either the same character, or its upper-case form.
pub open spec fn matches_lower(x: char, y: char) -> bool {
    x == y || (97 <= (y as int) <= 122 && (x as int) == (y as int) - 32)
}

/// Case-insensitive equality against an already lower-case word.
pub open spec fn eq_ignore_case(s: Seq<char>, lit: Seq<char>) -> bool {
    s.len() == lit.len() && forall|i: int| 0 <= i < s.len() ==> matches_lower(#[trigger] s[i], lit[i])
}

/// The preset a color name denotes, if any; names are matched
/// ignoring ASCII case.
pub open spec fn preset_of(s: Seq<char>) -> Option<PresetColor> {
    if eq_ignore_case(s, "reset"@) || eq_ignore_case(s, "default"@) {
        Some(PresetColor::Reset)
    } else if eq_ignore_case(s, "fg_reset"@) || eq_ignore_case(s, "fgreset"@) || eq_ignore_case(
        s,
        "default_fg"@,
    ) {
        Some(PresetColor::FgReset)
    } else if eq_ignore_case(s, "invert"@) || eq_ignore_case(s, "reverse"@) {
        Some(PresetColor::Invert)
    } else if eq_ignore_case(s, "red"@) {
        Some(PresetColor::Red)
    } else if eq_ignore_case(s, "yellow"@) || eq_ignore_case(s, "yel"@) {
        Some(PresetColor::Yellow)
    } else if eq_ignore_case(s, "blue"@) {
        Some(PresetColor::Blue)
    } else if eq_ignore_case(s, "green"@) {
        Some(PresetColor::Green)
    } else if eq_ignore_case(s, "cyan"@) {
        Some(PresetColor::Cyan)
    } else if eq_ignore_case(s, "magenta"@) || eq_ignore_case(s, "purple"@) {
        Some(PresetColor::Magenta)
    } else if eq_ignore_case(s, "white"@) {
        Some(PresetColor::White)
    } else {
        None
    }
}

/// Compares a string against an already lower-case word, ignoring
/// ASCII case.
fn eq_ignore_case_exec(s: &str, lit: &str) -> (r: bool)
    ensures
        r == eq_ignore_case(s@, lit@),
{
    let slen = s.unicode_len();
    let llen = lit.unicode_len();
    if slen != llen {
        return false;
    }
    let mut i: usize = 0;
    while i < slen
        invariant
            i <= slen,
            slen == s@.len(),
            slen == lit@.len(),
            forall|j: int| 0 <= j < i ==> matches_lower(#[trigger] s@[j], lit@[j]),
        decreases slen - i,
    {
        let cs = s.get_char(i);
        let cl = lit.get_char(i);
        let ok = cs == cl || (97 <= (cl as u32) && (cl as u32) <= 122 && (cs as u32) + 32 == (cl
            as u32));
        if !ok {
            proof {
                assert(!matches_lower(s@[i as int], lit@[i as int]));
            }
            return false;
        }
        i += 1;
    }
    true
}

impl PresetColor {
    /// The ANSI escape sequence of this preset.
    pub fn to_ansi(self) -> (r: &'static str)
        ensures
            r@ == preset_ansi(self),
    {
        match self {
            PresetColor::Reset => "\x1b[0m",
            PresetColor::FgReset => "\x1b[39m",
            PresetColor::Invert => "\x1b[7m",
            PresetColor::Red => "\x1b[31m",
            PresetColor::Yellow => "\x1b[33m",
            PresetColor::Blue => "\x1b[34m",
            PresetColor::Green => "\x1b[32m",
            PresetColor::Cyan => "\x1b[36m",
            PresetColor::Magenta => "\x1b[35m",
            PresetColor::White => "\x1b[37m",
        }
    }

    /// The RGB value of this preset.
    pub fn to_rgb(self) -> (r: (u8, u8, u8))
        ensures
            r == preset_rgb_spec(self),
    {
        match self {
            PresetColor::Reset => (255, 255, 255),
            PresetColor::FgReset => (255, 255, 255),
            PresetColor::Invert => (255, 255, 255),
            PresetColor::Red => (205, 49, 49),
            PresetColor::Yellow => (229, 229, 16),
            PresetColor::Blue => (36, 114, 200),
            PresetColor::Green => (13, 188, 121),
            PresetColor::Cyan => (17, 168, 205),
            PresetColor::Magenta => (188, 63, 188),
            PresetColor::White => (229, 229, 229),
        }
    }

    /// Resolves a color name, ignoring ASCII case.
    pub fn parse(name: &str) -> (r: Result<PresetColor, ThemeError>)
        ensures
            match preset_of(name@) {
                Some(p) => r == Ok::<PresetColor, ThemeError>(p),
                None => r == Err::<PresetColor, ThemeError>(ThemeError::UnknownColor),
            },
    {
        if eq_ignore_case_exec(name, "reset") || eq_ignore_case_exec(name, "default") {
            Ok(PresetColor::Reset)
        } else if eq_ignore_case_exec(name, "fg_reset") || eq_ignore_case_exec(name, "fgreset")
            || eq_ignore_case_exec(name, "default_fg") {
            Ok(PresetColor::FgReset)
        } else if eq_ignore_case_exec(name, "invert") || eq_ignore_case_exec(name, "reverse") {
            Ok(PresetColor::Invert)
        } else if eq_ignore_case_exec(name, "red") {
            Ok(PresetColor::Red)
        } else if eq_ignore_case_exec(name, "yellow") || eq_ignore_case_exec(name, "yel") {
            Ok(PresetColor::Yellow)
        } else if eq_ignore_case_exec(name, "blue") {
            Ok(PresetColor::Blue)
        } else if eq_ignore_case_exec(name, "green") {
            Ok(PresetColor::Green)
        } else if eq_ignore_case_exec(name, "cyan") {
            Ok(PresetColor::Cyan)
        } else if eq_ignore_case_exec(name, "magenta") || eq_ignore_case_exec(name, "purple") {
            Ok(PresetColor::Magenta)
        } else if eq_ignore_case_exec(name, "white") {
            Ok(PresetColor::White)
        } else {
            Err(ThemeError::UnknownColor)
        }
    }
}

/// The character of one decimal digit.
pub open spec fn digit_char(d: int) -> char {
    if d == 0 {
        '0'
    } else if d == 1 {
        '1'
    } else if d == 2 {
        '2'
    } else if d == 3 {
        '3'
    } else if d == 4 {
        '4'
    } else if d == 5 {
        '5'
    } else if d == 6 {
        '6'
    } else if d == 7 {
        '7'
    } else if d == 8 {
        '8'
    } else {
        '9'
    }
}

/// The decimal rendering of a byte value, without leading zeroes.
pub open spec fn dec_of_byte(n: int) -> Seq<char> {
    if n < 10 {
        seq![digit_char(n)]
    } else if n < 100 {
        seq![digit_char(n / 10), digit_char(n % 10)]
    } else {
        seq![digit_char(n / 100), digit_char((n / 10) % 10), digit_char(n % 10)]
    }
}

/// The ANSI 24-bit foreground escape sequence for an RGB color.
pub open spec fn ansi_of_rgb(r: int, g: int, b: int) -> Seq<char> {
    "\x1b[38;2;"@ + dec_of_byte(r) + ";"@ + dec_of_byte(g) + ";"@ + dec_of_byte(b) + "m"@
}

/// The string of one decimal digit.
fn digit_str(d: u8) -> (r: &'static str)
    requires
        d < 10,
    ensures
        r@ == seq![digit_char(d as int)],
{
    proof {
        reveal_strlit("0");
        reveal_strlit("1");
        reveal_strlit("2");
        reveal_strlit("3");
        reveal_strlit("4");
        reveal_strlit("5");
        reveal_strlit("6");
        reveal_strlit("7");
        reveal_strlit("8");
        reveal_strlit("9");
    }
    match d {
        0 => "0",
        1 => "1",
        2 => "2",
        3 => "3",
        4 => "4",
        5 => "5",
        6 => "6",
        7 => "7",
        8 => "8",
        _ => "9",
    }
}

/// Appends the decimal rendering of a byte to a string.
fn append_dec(out: &mut String, v: u8)
    ensures
        final(out)@ == old(out)@ + dec_of_byte(v as int),
{
    let ghost pre = out@;
    if v >= 100 {
        out.append(digit_str(v / 100));
        out.append(digit_str((v / 10) % 10));
        out.append(digit_str(v % 10));
        proof {
            assert(out@ =~= pre + dec_of_byte(v as int));
        }
    } else if v >= 10 {
        out.append(digit_str(v / 10));
        out.append(digit_str(v % 10));
        proof {
            assert(out@ =~= pre + dec_of_byte(v as int));
        }
    } else {
        out.append(digit_str(v));
        proof {
            assert(out@ =~= pre + dec_of_byte(v as int));
        }
    }
}

/// A color: a named preset, or an explicit RGB triple.
#[derive(Debug, Clone)]
pub enum Color {
    Preset { name: String },
    RGB { r: u8, g: u8, b: u8 },
}

/// The RGB value a color denotes, if its name is recognised.
pub open spec fn color_rgb(c: &Color) -> Option<(u8, u8, u8)> {
    match c {
        Color::Preset { name } => match preset_of(name@) {
            Some(p) => Some(preset_rgb_spec(p)),
            None => None,
        },
        Color::RGB { r, g, b } => Some((*r, *g, *b)),
    }
}

/// The ANSI escape sequence a color denotes, if its name is
/// recognised.
pub open spec fn color_ansi(c: &Color) -> Option<Seq<char>> {
    match c {
        Color::Preset { name } => match preset_of(name@) {
            Some(p) => Some(preset_ansi(p)),
            None => None,
        },
        Color::RGB { r, g, b } => Some(ansi_of_rgb(*r as int, *g as int, *b as int)),
    }
}

/// Whether a color can be rendered at all.
pub open spec fn color_valid(c: &Color) -> bool {
    color_rgb(c) is Some
}

impl Color {
    /// The ANSI escape sequence of this color.
    pub fn to_ansi(&self) -> (r: Result<String, ThemeError>)
        ensures
            match color_ansi(self) {
                Some(s) => r matches Ok(out) && out@ == s,
                None => r == Err::<String, ThemeError>(ThemeError::UnknownColor),
            },
    {
        match self {
            Color::Preset { name } => {
                let preset = PresetColor::parse(name.as_str())?;
                Ok(preset.to_ansi().to_owned())
            },
            Color::RGB { r, g, b } => {
                let mut out = String::new();
                out.append("\x1b[38;2;");
                append_dec(&mut out, *r);
                out.append(";");
                append_dec(&mut out, *g);
                out.append(";");
                append_dec(&mut out, *b);
                out.append("m");
                proof {
                    assert(out@ =~= ansi_of_rgb(*r as int, *g as int, *b as int));
                }
                Ok(out)
            },
        }
    }

    /// The RGB value of this color.
    pub fn to_rgb(&self) -> (r: Result<(u8, u8, u8), ThemeError>)
        ensures
            match color_rgb(self) {
                Some(rgb) => r == Ok::<(u8, u8, u8), ThemeError>(rgb),
                None => r == Err::<(u8, u8, u8), ThemeError>(ThemeError::UnknownColor),
            },
    {
        match self {
            Color::Preset { name } => {
                let preset = PresetColor::parse(name.as_str())?;
                Ok(preset.to_rgb())
            },
            Color::RGB { r, g, b } => Ok((*r, *g, *b)),
        }
    }

    /// Checks that this color can be rendered.
    pub fn validate(&self) -> (r: Result<(), ThemeError>)
        ensures
            r is Ok <==> color_valid(self),
            !color_valid(self) ==> r == Err::<(), ThemeError>(ThemeError::UnknownColor),
    {
        if let Color::Preset { name } = self {
            let _preset = PresetColor::parse(name.as_str())?;
        }
        Ok(())
    }
}

impl Default for Color {
    /// The fallback color: the `reset` preset.
    fn default() -> (r: Color)
        ensures
            r matches Color::Preset { name } && name@ == "reset"@,
            color_valid(&r),
    {
        let r = Color::Preset { name: "reset".to_owned() };
        proof {
            lemma_lower_name_resolves("reset"@);
        }
        r
    }
}

/// Theme configuration for the rendered tree: one color per visual
/// role.
#[derive(Debug, Clone)]
pub struct Theme {
    pub reset: Color,
    pub fg_reset: Color,
    pub dir: Color,
    pub file: Color,
    pub error: Color,
    pub highlight_start: Color,
    pub highlight_end: Color,
    pub dir_gradient_start: Color,
    pub dir_gradient_end: Color,
    pub file_gradient_start: Color,
    pub file_gradient_end: Color,
}

/// Whether every color of a theme can be rendered.
pub open spec fn theme_valid(t: &Theme) -> bool {
    &&& color_valid(&t.reset)
    &&& color_valid(&t.fg_reset)
    &&& color_valid(&t.dir)
    &&& color_valid(&t.file)
    &&& color_valid(&t.error)
    &&& color_valid(&t.highlight_start)
    &&& color_valid(&t.highlight_end)
    &&& color_valid(&t.dir_gradient_start)
    &&& color_valid(&t.dir_gradient_end)
    &&& color_valid(&t.file_gradient_start)
    &&& color_valid(&t.file_gradient_end)
}

impl Theme {
    /// Checks that every color of this theme can be rendered.
    pub fn validate(&self) -> (r: Result<(), ThemeError>)
        ensures
            r is Ok <==> theme_valid(self),
            !theme_valid(self) ==> r == Err::<(), ThemeError>(ThemeError::UnknownColor),
    {
        self.reset.validate()?;
        self.fg_reset.validate()?;
        self.dir.validate()?;
        self.file.validate()?;
        self.error.validate()?;
        self.highlight_start.validate()?;
        self.highlight_end.validate()?;
        self.dir_gradient_start.validate()?;
        self.dir_gradient_end.validate()?;
        self.file_gradient_start.validate()?;
        self.file_gradient_end.validate()?;
        Ok(())
    }
}

impl Default for Theme {
    /// The built-in theme: blue directories, white files, red errors,
    /// inverted highlight, and blue-to-cyan and grey-to-amber size
    /// gradients.
    fn default() -> (r: Theme)
        ensures
            theme_valid(&r),
            r.reset matches Color::Preset { name } && name@ == "reset"@,
            r.fg_reset matches Color::Preset { name } && name@ == "fg_reset"@,
            r.dir matches Color::Preset { name } && name@ == "blue"@,
            r.file matches Color::Preset { name } && name@ == "white"@,
            r.error matches Color::Preset { name } && name@ == "red"@,
            r.highlight_start matches Color::Preset { name } && name@ == "invert"@,
            r.highlight_end matches Color::Preset { name } && name@ == "reset"@,
            r.dir_gradient_start == (Color::RGB { r: 58, g: 123, b: 213 }),
            r.dir_gradient_end == (Color::RGB { r: 0, g: 210, b: 255 }),
            r.file_gradient_start == (Color::RGB { r: 180, g: 180, b: 180 }),
            r.file_gradient_end == (Color::RGB { r: 255, g: 200, b: 120 }),
    {
        let theme = Theme {
            reset: Color::Preset { name: "reset".to_owned() },
            fg_reset: Color::Preset { name: "fg_reset".to_owned() },
            dir: Color::Preset { name: "blue".to_owned() },
            file: Color::Preset { name: "white".to_owned() },
            error: Color::Preset { name: "red".to_owned() },
            highlight_start: Color::Preset { name: "invert".to_owned() },
            highlight_end: Color::Preset { name: "reset".to_owned() },
            dir_gradient_start: Color::RGB { r: 58, g: 123, b: 213 },
            dir_gradient_end: Color::RGB { r: 0, g: 210, b: 255 },
            file_gradient_start: Color::RGB { r: 180, g: 180, b: 180 },
            file_gradient_end: Color::RGB { r: 255, g: 200, b: 120 },
        };
        proof {
            lemma_default_theme_valid(&theme);
        }
        theme
    }
}

/// The built-in preset names all resolve.
proof fn lemma_default_theme_valid(t: &Theme)
    requires
        t.reset matches Color::Preset { name } && name@ == "reset"@,
        t.fg_reset matches Color::Preset { name } && name@ == "fg_reset"@,
        t.dir matches Color::Preset { name } && name@ == "blue"@,
        t.file matches Color::Preset { name } && name@ == "white"@,
        t.error matches Color::Preset { name } && name@ == "red"@,
        t.highlight_start matches Color::Preset { name } && name@ == "invert"@,
        t.highlight_end matches Color::Preset { name } && name@ == "reset"@,
        t.dir_gradient_start is RGB,
        t.dir_gradient_end is RGB,
        t.file_gradient_start is RGB,
        t.file_gradient_end is RGB,
    ensures
        theme_valid(t),
{
    lemma_lower_name_resolves("reset"@);
    lemma_lower_name_resolves("fg_reset"@);
    lemma_lower_name_resolves("blue"@);
    lemma_lower_name_resolves("white"@);
    lemma_lower_name_resolves("red"@);
    lemma_lower_name_resolves("invert"@);
}

/// A name equal to one of the recognised lower-case aliases resolves
/// to a preset.
proof fn lemma_lower_name_resolves(s: Seq<char>)
    requires
        s == "reset"@ || s == "fg_reset"@ || s == "blue"@ || s == "white"@ || s == "red"@ || s
            == "invert"@,
    ensures
        preset_of(s) is Some,
{
    assert(eq_ignore_case(s, s));
}

} // verus!
