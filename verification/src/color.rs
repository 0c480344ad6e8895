//! The color model: RGB triples, web-color hex strings, and the
//! squared Euclidean distance between colors.

use vstd::prelude::*;

verus! {

/// An RGB color. Each channel is one byte, so the conventional range
/// `0..=255` is enforced by the type itself.
#[derive(Clone, Copy, Debug, PartialEq, Eq, Structural)]
pub struct Color {
    pub red: u8,
    pub green: u8,
    pub blue: u8,
}

/// Why a web-color string failed to parse.
#[derive(Clone, Copy, Debug, PartialEq, Eq, Structural)]
pub enum FormatError {
    /// After the optional leading `#`, the string is not exactly six characters long.
    WrongLength,
    /// The string has the right length but holds a character that is not a hex digit.
    NotHex,
}

/// `c` is an ASCII hexadecimal digit, in either case.
pub open spec fn is_hex_digit(c: char) -> bool {
    (48 <= c as u32 && c as u32 <= 57)  // '0' ..= '9'
    || (97 <= c as u32 && c as u32 <= 102)  // 'a' ..= 'f'
    || (65 <= c as u32 && c as u32 <= 70)  // 'A' ..= 'F'
}

/// The numeric value of a hex digit.
pub open spec fn hex_val(c: char) -> int
    recommends
        is_hex_digit(c),
{
    if 48 <= c as u32 && c as u32 <= 57 {
        c as u32 - 48
    } else if 97 <= c as u32 && c as u32 <= 102 {
        c as u32 - 87
    } else {
        c as u32 - 55
    }
}

/// The value of a two-digit hex group, in `0..=255` for hex digits.
pub open spec fn hex_pair_val(hi: char, lo: char) -> int
    recommends
        is_hex_digit(hi),
        is_hex_digit(lo),
{
    16 * hex_val(hi) + hex_val(lo)
}

/// The string with one leading `#` removed, if there is one.
pub open spec fn strip_hash(s: Seq<char>) -> Seq<char> {
    if s.len() > 0 && s[0] == '#' {
        s.drop_first()
    } else {
        s
    }
}

/// Exactly six characters, all hexadecimal digits.
pub open spec fn valid_hex6(t: Seq<char>) -> bool {
    t.len() == 6 && (forall|i: int| 0 <= i < 6 ==> is_hex_digit(#[trigger] t[i]))
}

/// The color encoded by six hex digits, two per channel.
pub open spec fn spec_parse_hex6(t: Seq<char>) -> Color
    recommends
        valid_hex6(t),
{
    Color {
        red: hex_pair_val(t[0], t[1]) as u8,
        green: hex_pair_val(t[2], t[3]) as u8,
        blue: hex_pair_val(t[4], t[5]) as u8,
    }
}

/// The uppercase hex digit for a value in `0..=15`.
pub open spec fn upper_hex_digit(v: int) -> char
    recommends
        0 <= v < 16,
{
    if v < 10 {
        ((v + 48) as u8) as char
    } else {
        ((v + 55) as u8) as char
    }
}

/// The canonical `#RRGGBB` form of a color: `#` followed by each channel
/// as two uppercase hex digits, zero-padded.
pub open spec fn spec_webcolor(c: Color) -> Seq<char> {
    seq![
        '#',
        upper_hex_digit(c.red as int / 16),
        upper_hex_digit(c.red as int % 16),
        upper_hex_digit(c.green as int / 16),
        upper_hex_digit(c.green as int % 16),
        upper_hex_digit(c.blue as int / 16),
        upper_hex_digit(c.blue as int % 16),
    ]
}

/// A hex digit folded to uppercase; any other character is left alone.
pub open spec fn to_upper_hex(c: char) -> char {
    if 97 <= c as u32 && c as u32 <= 102 {
        ((c as u32 - 32) as u8) as char
    } else {
        c
    }
}

/// The squared Euclidean distance between two colors in RGB space.
///
/// The true Euclidean distance is the square root of this value; since
/// the square root is strictly monotonic, every comparison of distances
/// can be decided on the squares, which keeps the arithmetic integral.
pub open spec fn spec_dist_sq(a: Color, b: Color) -> int {
    let dr = a.red as int - b.red as int;
    let dg = a.green as int - b.green as int;
    let db = a.blue as int - b.blue as int;
    dr * dr + dg * dg + db * db
}

/// Relies on String::push: appends the given character to the end of the string.
#[verifier::external_body]
fn push_char(s: &mut String, c: char)
    ensures
        final(s)@ == old(s)@.push(c),
{
    s.push(c)
}

/// Collects a slice of characters into an owned string.
pub fn char_array_to_string(chars: &[char]) -> (r: String)
    ensures
        r@ == chars@,
{
    let mut r = String::new();
    let mut i: usize = 0;
    while i < chars.len()
        invariant
            i <= chars@.len(),
            r@ == chars@.take(i as int),
        decreases chars@.len() - i,
    {
        let c = chars[i];
        push_char(&mut r, c);
        i = i + 1;
        proof {
            assert(chars@.take(i as int) =~= chars@.take(i as int - 1).push(chars@[i - 1]));
        }
    }
    proof {
        assert(chars@.take(chars@.len() as int) =~= chars@);
    }
    r
}

/// The value of one hex digit character, or `None` if it is not one.
fn hex_digit_val(c: char) -> (r: Option<u8>)
    ensures
        match r {
            Some(v) => is_hex_digit(c) && v < 16 && v as int == hex_val(c),
            None => !is_hex_digit(c),
        },
{
    let u = c as u32;
    if 48 <= u && u <= 57 {
        Some((u - 48) as u8)
    } else if 97 <= u && u <= 102 {
        Some((u - 87) as u8)
    } else if 65 <= u && u <= 70 {
        Some((u - 55) as u8)
    } else {
        None
    }
}

/// The uppercase hex digit character for a value in `0..=15`.
fn hex_digit_char(v: u8) -> (c: char)
    requires
        v < 16,
    ensures
        c == upper_hex_digit(v as int),
{
    if v < 10 {
        (v + 48) as char
    } else {
        (v + 55) as char
    }
}

impl Color {
    /// Parses a web-color string: an optional leading `#` followed by
    /// exactly six hex digits, two per channel.
    pub fn from_webcolor(color: &str) -> (r: Result<Color, FormatError>)
        ensures
            ({
                let t = strip_hash(color@);
                match r {
                    Ok(c) => valid_hex6(t) && c == spec_parse_hex6(t),
                    Err(FormatError::WrongLength) => t.len() != 6,
                    Err(FormatError::NotHex) => t.len() == 6 && !valid_hex6(t),
                }
            }),
    {
        let n = color.unicode_len();
        let start: usize = if n > 0 && color.get_char(0) == '#' {
            1
        } else {
            0
        };
        proof {
            assert(strip_hash(color@) =~= color@.skip(start as int));
        }
        if n - start != 6 {
            return Err(FormatError::WrongLength);
        }
        let ghost t = strip_hash(color@);
        let mut vals: Vec<u8> = Vec::new();
        let mut i: usize = 0;
        while i < 6
            invariant
                i <= 6,
                vals@.len() == i,
                n == color@.len(),
                start + 6 == n,
                t == strip_hash(color@),
                t =~= color@.skip(start as int),
                forall|k: int| 0 <= k < i ==> is_hex_digit(#[trigger] t[k]),
                forall|k: int|
                    0 <= k < i ==> #[trigger] vals@[k] < 16 && vals@[k] as int == hex_val(t[k]),
            decreases 6 - i,
        {
            let c = color.get_char(start + i);
            assert(c == t[i as int]);
            match hex_digit_val(c) {
                Some(v) => {
                    vals.push(v);
                    proof {
                        assert(is_hex_digit(t[i as int]));
                        assert forall|k: int|
                            0 <= k < i + 1 implies #[trigger] vals@[k] < 16 && vals@[k] as int
                            == hex_val(t[k]) by {
                            if k == i {
                                assert(vals@[k] == v);
                                assert(t[k] == c);
                            }
                        }
                    }
                },
                None => {
                    assert(!is_hex_digit(t[i as int]));
                    return Err(FormatError::NotHex);
                },
            }
            i = i + 1;
        }
        let red = 16 * vals[0] + vals[1];
        let green = 16 * vals[2] + vals[3];
        let blue = 16 * vals[4] + vals[5];
        let c = Color { red, green, blue };
        proof {
            assert(valid_hex6(t));
            assert(c == spec_parse_hex6(t));
        }
        Ok(c)
    }

    /// Renders the color in its canonical `#RRGGBB` uppercase hex form.
    pub fn as_webcolor(&self) -> (r: String)
        ensures
            r@ == spec_webcolor(*self),
    {
        let mut cs: Vec<char> = Vec::new();
        cs.push('#');
        cs.push(hex_digit_char(self.red / 16));
        cs.push(hex_digit_char(self.red % 16));
        cs.push(hex_digit_char(self.green / 16));
        cs.push(hex_digit_char(self.green % 16));
        cs.push(hex_digit_char(self.blue / 16));
        cs.push(hex_digit_char(self.blue % 16));
        proof {
            assert(cs@ =~= spec_webcolor(*self));
        }
        char_array_to_string(cs.as_slice())
    }

    /// The squared Euclidean distance to another color.
    pub fn distance_squared(&self, other: &Color) -> (d: u32)
        ensures
            d as int == spec_dist_sq(*self, *other),
    {
        let dr = self.red as i32 - other.red as i32;
        let dg = self.green as i32 - other.green as i32;
        let db = self.blue as i32 - other.blue as i32;
        proof {
            assert(0 <= dr * dr <= 65025 && 0 <= dg * dg <= 65025 && 0 <= db * db <= 65025)
                by (nonlinear_arith)
                requires
                    -255 <= dr <= 255,
                    -255 <= dg <= 255,
                    -255 <= db <= 255,
            ;
        }
        let s = dr * dr + dg * dg + db * db;
        s as u32
    }
}

/// Distance is symmetric: measuring from either end gives the same value.
pub proof fn lemma_dist_sq_symmetric(a: Color, b: Color)
    ensures
        spec_dist_sq(a, b) == spec_dist_sq(b, a),
{
    let dr = a.red as int - b.red as int;
    let dg = a.green as int - b.green as int;
    let db = a.blue as int - b.blue as int;
    assert(dr * dr == (-dr) * (-dr) && dg * dg == (-dg) * (-dg) && db * db == (-db) * (-db))
        by (nonlinear_arith);
}

/// Distance is zero exactly between a color and itself.
pub proof fn lemma_dist_sq_zero(a: Color, b: Color)
    ensures
        spec_dist_sq(a, b) == 0 <==> a == b,
{
    let dr = a.red as int - b.red as int;
    let dg = a.green as int - b.green as int;
    let db = a.blue as int - b.blue as int;
    assert(dr * dr >= 0 && dg * dg >= 0 && db * db >= 0) by (nonlinear_arith);
    if spec_dist_sq(a, b) == 0 {
        assert(dr * dr == 0 && dg * dg == 0 && db * db == 0);
        assert(dr == 0 && dg == 0 && db == 0) by (nonlinear_arith)
            requires
                dr * dr == 0 && dg * dg == 0 && db * db == 0,
        ;
        assert(a == b);
    }
    if a == b {
        assert(dr == 0 && dg == 0 && db == 0);
        assert(dr * dr == 0 && dg * dg == 0 && db * db == 0) by (nonlinear_arith)
            requires
                dr == 0 && dg == 0 && db == 0,
        ;
    }
}

/// Squares are never negative.
proof fn lemma_sq_nonneg(a: int)
    ensures
        a * a >= 0,
{
    assert(a * a >= 0) by (nonlinear_arith);
}

/// The square of a two-term sum, expanded.
proof fn lemma_sq_sum2(a: int, b: int)
    ensures
        (a + b) * (a + b) == a * a + 2 * (a * b) + b * b,
{
    assert((a + b) * (a + b) == a * a + 2 * (a * b) + b * b) by (nonlinear_arith);
}

/// The square of a three-term sum, expanded.
proof fn lemma_sq_sum3(a: int, b: int, c: int)
    ensures
        (a + b + c) * (a + b + c) == a * a + b * b + c * c + 2 * (a * b) + 2 * (a * c) + 2 * (b
            * c),
{
    assert((a + b + c) * (a + b + c) == a * a + b * b + c * c + 2 * (a * b) + 2 * (a * c) + 2 * (b
        * c)) by (nonlinear_arith);
}

/// The square of a two-term difference, expanded.
proof fn lemma_sq_diff(a: int, b: int)
    ensures
        (a - b) * (a - b) == a * a - 2 * (a * b) + b * b,
{
    assert((a - b) * (a - b) == a * a - 2 * (a * b) + b * b) by (nonlinear_arith);
}

/// A product of three-term sums, distributed.
proof fn lemma_mul_sum3(a1: int, a2: int, a3: int, b1: int, b2: int, b3: int)
    ensures
        (a1 + a2 + a3) * (b1 + b2 + b3) == a1 * b1 + a1 * b2 + a1 * b3 + a2 * b1 + a2 * b2 + a2
            * b3 + a3 * b1 + a3 * b2 + a3 * b3,
{
    assert((a1 + a2 + a3) * (b1 + b2 + b3) == a1 * b1 + a1 * b2 + a1 * b3 + a2 * b1 + a2 * b2 + a2
        * b3 + a3 * b1 + a3 * b2 + a3 * b3) by (nonlinear_arith);
}

/// Products of two factors from each of two coordinate pairs, regrouped.
proof fn lemma_pair_products(p: int, q: int, r: int, s: int)
    ensures
        (p * s) * (p * s) == (p * p) * (s * s),
        (q * r) * (q * r) == (q * q) * (r * r),
        (p * r) * (q * s) == (p * q) * (r * s),
        (p * s) * (q * r) == (p * q) * (r * s),
{
    assert((p * s) * (p * s) == (p * p) * (s * s) && (q * r) * (q * r) == (q * q) * (r * r) && (p
        * r) * (q * s) == (p * q) * (r * s) && (p * s) * (q * r) == (p * q) * (r * s))
        by (nonlinear_arith);
}

/// The triangle inequality of the Euclidean distance, stated without
/// square roots: for non-negative reals, `sqrt(x) <= sqrt(y) + sqrt(z)`
/// holds exactly when `x <= y + z` or `(x - y - z)^2 <= 4*y*z`, and the
/// three squared distances satisfy that condition.
pub proof fn lemma_dist_sq_triangle(a: Color, b: Color, c: Color)
    ensures
        spec_dist_sq(a, b) <= spec_dist_sq(a, c) + spec_dist_sq(c, b) || (spec_dist_sq(a, b)
            - spec_dist_sq(a, c) - spec_dist_sq(c, b)) * (spec_dist_sq(a, b) - spec_dist_sq(a, c)
            - spec_dist_sq(c, b)) <= 4 * spec_dist_sq(a, c) * spec_dist_sq(c, b),
{
    let u1 = a.red as int - c.red as int;
    let u2 = a.green as int - c.green as int;
    let u3 = a.blue as int - c.blue as int;
    let v1 = c.red as int - b.red as int;
    let v2 = c.green as int - b.green as int;
    let v3 = c.blue as int - b.blue as int;
    let t = u1 * v1 + u2 * v2 + u3 * v3;
    let y = u1 * u1 + u2 * u2 + u3 * u3;
    let z = v1 * v1 + v2 * v2 + v3 * v3;
    let x = spec_dist_sq(a, b);
    assert(a.red as int - b.red as int == u1 + v1);
    assert(x == (u1 + v1) * (u1 + v1) + (u2 + v2) * (u2 + v2) + (u3 + v3) * (u3 + v3));
    assert(y == spec_dist_sq(a, c) && z == spec_dist_sq(c, b));
    // Expanding the three squares relates x to y, z and the inner product t.
    lemma_sq_sum2(u1, v1);
    lemma_sq_sum2(u2, v2);
    lemma_sq_sum2(u3, v3);
    assert(x == y + z + 2 * t);
    // The Cauchy-Schwarz inequality t*t <= y*z, through the Lagrange
    // identity, assembled from regrouped monomials.
    lemma_mul_sum3(u1 * u1, u2 * u2, u3 * u3, v1 * v1, v2 * v2, v3 * v3);
    lemma_sq_sum3(u1 * v1, u2 * v2, u3 * v3);
    lemma_pair_products(u1, u2, v1, v2);
    lemma_pair_products(u1, u3, v1, v3);
    lemma_pair_products(u2, u3, v2, v3);
    lemma_pair_products(u1, u1, v1, v1);
    lemma_pair_products(u2, u2, v2, v2);
    lemma_pair_products(u3, u3, v3, v3);
    let c12 = u1 * v2 - u2 * v1;
    let c13 = u1 * v3 - u3 * v1;
    let c23 = u2 * v3 - u3 * v2;
    lemma_sq_diff(u1 * v2, u2 * v1);
    lemma_sq_diff(u1 * v3, u3 * v1);
    lemma_sq_diff(u2 * v3, u3 * v2);
    assert(y * z - t * t == c12 * c12 + c13 * c13 + c23 * c23);
    lemma_sq_nonneg(c12);
    lemma_sq_nonneg(c13);
    lemma_sq_nonneg(c23);
    assert(t * t <= y * z);
    if t > 0 {
        assert((2 * t) * (2 * t) == 4 * (t * t)) by (nonlinear_arith);
        assert(x - y - z == 2 * t);
        assert((x - y - z) * (x - y - z) == 4 * (t * t));
        assert(4 * (t * t) <= 4 * (y * z));
        assert(4 * (y * z) == 4 * y * z) by (nonlinear_arith);
        assert((x - y - z) * (x - y - z) <= 4 * y * z);
    }
}

/// A hex digit survives parsing and re-rendering as its uppercase form.
proof fn lemma_hex_digit_roundtrip(c: char)
    requires
        is_hex_digit(c),
    ensures
        0 <= hex_val(c) < 16,
        upper_hex_digit(hex_val(c)) == to_upper_hex(c),
{
}

/// An uppercase hex digit character parses back to its value.
proof fn lemma_upper_hex_digit_val(v: int)
    requires
        0 <= v < 16,
    ensures
        is_hex_digit(upper_hex_digit(v)),
        hex_val(upper_hex_digit(v)) == v,
        to_upper_hex(upper_hex_digit(v)) == upper_hex_digit(v),
{
}

/// Formatting a parsed color gives back the canonical uppercase form of
/// the six digits that were parsed, behind a leading `#`.
pub proof fn lemma_hex_roundtrip(t: Seq<char>)
    requires
        valid_hex6(t),
    ensures
        spec_webcolor(spec_parse_hex6(t)) == seq!['#'].add(
            t.map_values(|c: char| to_upper_hex(c)),
        ),
{
    let c = spec_parse_hex6(t);
    assert forall|i: int| 0 <= i < 6 implies 0 <= hex_val(t[i]) < 16 && upper_hex_digit(
        hex_val(#[trigger] t[i]),
    ) == to_upper_hex(t[i]) by {
        lemma_hex_digit_roundtrip(t[i]);
    }
    assert(c.red as int == hex_pair_val(t[0], t[1]));
    assert(c.green as int == hex_pair_val(t[2], t[3]));
    assert(c.blue as int == hex_pair_val(t[4], t[5]));
    lemma_pair_split(hex_val(t[0]), hex_val(t[1]));
    lemma_pair_split(hex_val(t[2]), hex_val(t[3]));
    lemma_pair_split(hex_val(t[4]), hex_val(t[5]));
    assert(spec_webcolor(c) =~= seq!['#'].add(t.map_values(|ch: char| to_upper_hex(ch))));
}

/// A two-digit group splits back into its digits by division and remainder.
proof fn lemma_pair_split(hi: int, lo: int)
    requires
        0 <= hi < 16,
        0 <= lo < 16,
    ensures
        (16 * hi + lo) / 16 == hi,
        (16 * hi + lo) % 16 == lo,
{
    assert((16 * hi + lo) / 16 == hi && (16 * hi + lo) % 16 == lo) by (nonlinear_arith)
        requires
            0 <= hi < 16,
            0 <= lo < 16,
    ;
}

/// Parsing the canonical form of a color gives the color back: the
/// round trip over the three-byte domain is the identity.
pub proof fn lemma_webcolor_roundtrip(c: Color)
    ensures
        valid_hex6(strip_hash(spec_webcolor(c))),
        spec_parse_hex6(strip_hash(spec_webcolor(c))) == c,
{
    let s = spec_webcolor(c);
    let t = strip_hash(s);
    assert(t =~= s.drop_first());
    lemma_upper_hex_digit_val(c.red as int / 16);
    lemma_upper_hex_digit_val(c.red as int % 16);
    lemma_upper_hex_digit_val(c.green as int / 16);
    lemma_upper_hex_digit_val(c.green as int % 16);
    lemma_upper_hex_digit_val(c.blue as int / 16);
    lemma_upper_hex_digit_val(c.blue as int % 16);
    assert(valid_hex6(t));
    assert(hex_pair_val(t[0], t[1]) == 16 * (c.red as int / 16) + c.red as int % 16);
    assert(spec_parse_hex6(t).red == c.red);
    assert(spec_parse_hex6(t).green == c.green);
    assert(spec_parse_hex6(t).blue == c.blue);
}

} // verus!
