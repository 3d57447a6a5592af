use vstd::prelude::*;

verus! {

/// An RGB color used to describe how an entity is drawn.
#[derive(Clone, Copy, Debug, PartialEq, Eq, Structural)]
pub struct Color {
    pub r: u8,
    pub g: u8,
    pub b: u8,
}

/// Upper-case hexadecimal digit of a value below sixteen.
pub open spec fn hex_digit(v: nat) -> char {
    if v < 10 {
        (('0' as nat) + v) as char
    } else {
        (('A' as nat) + (v - 10)) as char
    }
}

/// Two upper-case hexadecimal digits of a byte.
pub open spec fn hex_byte(v: u8) -> Seq<char> {
    seq![hex_digit((v / 16) as nat), hex_digit((v % 16) as nat)]
}

/// `#RRGGBB`, the code under which the color is handed to a canvas.
pub open spec fn color_code(c: Color) -> Seq<char> {
    seq!['#'] + hex_byte(c.r) + hex_byte(c.g) + hex_byte(c.b)
}

/// Halves a channel.
pub open spec fn darken_channel(v: u8) -> u8 {
    (v / 2) as u8
}

/// Moves a channel half of the way towards full intensity.
pub open spec fn tint_channel(v: u8) -> u8 {
    (v + (255 - v) / 2) as u8
}

/// Relies on `String::push`: appends one character at the end.
#[verifier::external_body]
fn push_char(s: &mut String, c: char)
    ensures
        final(s)@ == old(s)@.push(c),
{
    s.push(c)
}

fn hex_digit_char(v: u8) -> (c: char)
    requires
        v < 16,
    ensures
        c == hex_digit(v as nat),
{
    if v < 10 {
        let c = (48u8 + v) as char;
        assert(c == hex_digit(v as nat));
        c
    } else {
        let c = (55u8 + v) as char;
        assert(c == hex_digit(v as nat));
        c
    }
}

impl Color {
    pub fn new(r: u8, g: u8, b: u8) -> (c: Color)
        ensures
            c == (Color { r, g, b }),
    {
        Color { r, g, b }
    }

    pub fn brown() -> (c: Color)
        ensures
            c == (Color { r: 226, g: 132, b: 19 }),
    {
        Color { r: 226, g: 132, b: 19 }
    }

    pub fn black() -> (c: Color)
        ensures
            c == (Color { r: 0, g: 0, b: 34 }),
    {
        Color { r: 0, g: 0, b: 34 }
    }

    pub fn mildew() -> (c: Color)
        ensures
            c == (Color { r: 51, g: 101, b: 138 }),
    {
        Color { r: 51, g: 101, b: 138 }
    }

    pub fn yellow() -> (c: Color)
        ensures
            c == (Color { r: 246, g: 174, b: 45 }),
    {
        Color { r: 246, g: 174, b: 45 }
    }

    pub fn deep_red() -> (c: Color)
        ensures
            c == (Color { r: 107, g: 39, b: 55 }),
    {
        Color { r: 107, g: 39, b: 55 }
    }

    pub fn bright_red() -> (c: Color)
        ensures
            c == (Color { r: 220, g: 20, b: 20 }),
    {
        Color { r: 220, g: 20, b: 20 }
    }

    /// The color at half intensity, used for cells remembered but not in sight.
    pub fn darkened(self) -> (c: Color)
        ensures
            c == (Color {
                r: darken_channel(self.r),
                g: darken_channel(self.g),
                b: darken_channel(self.b),
            }),
    {
        Color { r: self.r / 2, g: self.g / 2, b: self.b / 2 }
    }

    /// The color moved halfway to white, used for the hovered cell.
    pub fn tinted(self) -> (c: Color)
        ensures
            c == (Color { r: tint_channel(self.r), g: tint_channel(self.g), b: tint_channel(self.b) }),
    {
        Color {
            r: self.r + (255 - self.r) / 2,
            g: self.g + (255 - self.g) / 2,
            b: self.b + (255 - self.b) / 2,
        }
    }

    /// The `#RRGGBB` code of the color.
    pub fn to_string(&self) -> (s: String)
        ensures
            s@ == color_code(*self),
    {
        let mut s = String::new();
        push_char(&mut s, '#');
        push_char(&mut s, hex_digit_char(self.r / 16));
        push_char(&mut s, hex_digit_char(self.r % 16));
        push_char(&mut s, hex_digit_char(self.g / 16));
        push_char(&mut s, hex_digit_char(self.g % 16));
        push_char(&mut s, hex_digit_char(self.b / 16));
        push_char(&mut s, hex_digit_char(self.b % 16));
        assert(s@ =~= color_code(*self));
        s
    }
}

} // verus!
