use vstd::prelude::*;

verus! {

/// An RGBA color with 8 bits per channel.
#[derive(Debug, Clone, Copy, PartialEq, Eq, Structural)]
pub struct Color {
    pub r: u8,
    pub g: u8,
    pub b: u8,
    pub a: u8,
}

pub open spec fn color_white() -> Color {
    Color { r: 255, g: 255, b: 255, a: 255 }
}

/// The black of the format's defaults; note that it is fully transparent.
pub open spec fn color_black() -> Color {
    Color { r: 0, g: 0, b: 0, a: 0 }
}

pub open spec fn is_hex_digit(c: char) -> bool {
    ('0' <= c && c <= '9') || ('A' <= c && c <= 'F') || ('a' <= c && c <= 'f')
}

pub open spec fn hex_digit_value(c: char) -> int {
    if '0' <= c && c <= '9' {
        c as int - '0' as int
    } else if 'A' <= c && c <= 'F' {
        c as int - 'A' as int + 10
    } else {
        c as int - 'a' as int + 10
    }
}

pub open spec fn all_hex_digits(s: Seq<char>) -> bool {
    forall|i: int| 0 <= i < s.len() ==> is_hex_digit(#[trigger] s[i])
}

/// The number that a string of hexadecimal digits denotes, most significant first.
pub open spec fn hex_value(s: Seq<char>) -> int
    decreases s.len(),
{
    if s.len() == 0 {
        0
    } else {
        hex_value(s.drop_last()) * 16 + hex_digit_value(s.last())
    }
}

/// The color that a literal `#RRGGBB` or `#RRGGBBAA` denotes (alpha 255 when
/// absent); `None` for any other text.
pub open spec fn parse_color(s: Seq<char>) -> Option<Color> {
    if (s.len() == 7 || s.len() == 9) && s[0] == '#' && all_hex_digits(s.subrange(1, s.len() as int)) {
        Some(Color {
            r: hex_value(s.subrange(1, 3)) as u8,
            g: hex_value(s.subrange(3, 5)) as u8,
            b: hex_value(s.subrange(5, 7)) as u8,
            a: if s.len() == 9 { hex_value(s.subrange(7, 9)) as u8 } else { 255u8 },
        })
    } else {
        None
    }
}

proof fn lemma_hex_value_bound(s: Seq<char>)
    requires
        all_hex_digits(s),
    ensures
        0 <= hex_value(s),
        s.len() <= 2 ==> hex_value(s) < 256,
        s.len() <= 1 ==> hex_value(s) < 16,
    decreases s.len(),
{
    if s.len() > 0 {
        let p = s.drop_last();
        assert(all_hex_digits(p)) by {
            assert forall|i: int| 0 <= i < p.len() implies is_hex_digit(#[trigger] p[i]) by {
                assert(p[i] == s[i]);
            }
        }
        lemma_hex_value_bound(p);
        assert(is_hex_digit(s[s.len() - 1]));
    }
}

fn hex_digit(c: char) -> (r: Option<u8>)
    ensures
        r is Some <==> is_hex_digit(c),
        r is Some ==> r->0 as int == hex_digit_value(c) && r->0 < 16,
{
    if '0' <= c && c <= '9' {
        Some((c as u32 - '0' as u32) as u8)
    } else if 'A' <= c && c <= 'F' {
        Some((c as u32 - 'A' as u32 + 10) as u8)
    } else if 'a' <= c && c <= 'f' {
        Some((c as u32 - 'a' as u32 + 10) as u8)
    } else {
        None
    }
}

/// The value of a literal of at most two hexadecimal digits.
pub fn hexadecimal_to_decimal(literal: &str) -> (r: u8)
    requires
        literal@.len() <= 2,
        all_hex_digits(literal@),
    ensures
        r as int == hex_value(literal@),
{
    let n = literal.unicode_len();
    let mut result: u8 = 0;
    let mut i: usize = 0;
    while i < n
        invariant
            n == literal@.len(),
            n <= 2,
            i <= n,
            all_hex_digits(literal@),
            result as int == hex_value(literal@.subrange(0, i as int)),
        decreases n - i,
    {
        let c = literal.get_char(i);
        assert(is_hex_digit(literal@[i as int]));
        let d = hex_digit(c).unwrap();
        let ghost pre = literal@.subrange(0, i as int);
        let ghost next = literal@.subrange(0, i + 1);
        assert(next.drop_last() == pre);
        assert(all_hex_digits(pre)) by {
            assert forall|k: int| 0 <= k < pre.len() implies is_hex_digit(#[trigger] pre[k]) by {
                assert(pre[k] == literal@[k]);
            }
        }
        proof {
            lemma_hex_value_bound(pre);
        }
        assert(i == 0 ==> pre.len() == 0);
        assert(i == 0 ==> hex_value(pre) == 0);
        result = result * 16 + d;
        i = i + 1;
    }
    assert(literal@.subrange(0, n as int) == literal@);
    result
}

impl Color {
    pub fn white() -> (c: Color)
        ensures
            c == color_white(),
    {
        Color { r: 255, g: 255, b: 255, a: 255 }
    }

    pub fn black() -> (c: Color)
        ensures
            c == color_black(),
    {
        Color { r: 0, g: 0, b: 0, a: 0 }
    }

    pub fn new(r: u8, g: u8, b: u8, a: u8) -> (c: Color)
        ensures
            c == (Color { r, g, b, a }),
    {
        Color { r, g, b, a }
    }

    /// Reads `#RRGGBB` or `#RRGGBBAA`; any other text gives `None`.
    pub fn parse_hexadecimal_literal(hex: &str) -> (r: Option<Color>)
        ensures
            r == parse_color(hex@),
    {
        let n = hex.unicode_len();
        if n != 7 && n != 9 {
            return None;
        }
        if hex.get_char(0) != '#' {
            return None;
        }
        let mut i: usize = 1;
        while i < n
            invariant
                n == hex@.len(),
                1 <= i <= n,
                forall|k: int| 1 <= k < i ==> is_hex_digit(#[trigger] hex@[k]),
            decreases n - i,
        {
            if hex_digit(hex.get_char(i)).is_none() {
                assert(!all_hex_digits(hex@.subrange(1, n as int))) by {
                    assert(hex@.subrange(1, n as int)[i - 1] == hex@[i as int]);
                }
                return None;
            }
            i = i + 1;
        }
        let ghost s = hex@;
        assert(all_hex_digits(s.subrange(1, n as int))) by {
            assert forall|k: int| 0 <= k < s.subrange(1, n as int).len() implies is_hex_digit(
                #[trigger] s.subrange(1, n as int)[k],
            ) by {
                assert(s.subrange(1, n as int)[k] == s[k + 1]);
            }
        }
        let r = Color::pair(hex, 1);
        let g = Color::pair(hex, 3);
        let b = Color::pair(hex, 5);
        let a = if n == 9 {
            Color::pair(hex, 7)
        } else {
            255
        };
        Some(Color::new(r, g, b, a))
    }

    fn pair(hex: &str, start: usize) -> (v: u8)
        requires
            1 <= start,
            start + 2 <= hex@.len() <= 9,
            all_hex_digits(hex@.subrange(1, hex@.len() as int)),
        ensures
            v as int == hex_value(hex@.subrange(start as int, start + 2)),
    {
        let ghost s = hex@;
        let sub = hex.substring_char(start, start + 2);
        assert(all_hex_digits(sub@)) by {
            assert forall|k: int| 0 <= k < sub@.len() implies is_hex_digit(#[trigger] sub@[k]) by {
                assert(sub@[k] == s.subrange(1, s.len() as int)[start + k - 1]);
            }
        }
        hexadecimal_to_decimal(sub)
    }
}

} // verus!
