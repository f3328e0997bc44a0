use vstd::prelude::*;

verus! {

/// One of the named foreground colors of an ANSI terminal.
#[derive(Debug, Clone, Copy, PartialEq, Eq, Structural)]
pub enum PresetColor {
    Red,
    Yellow,
    Blue,
    Green,
    Cyan,
    Magenta,
}

/// A displayable color: a named preset or an explicit 24-bit triple.
#[derive(Debug, Clone, Copy, PartialEq, Eq, Structural)]
pub enum Color {
    Preset(PresetColor),
    RGB { r: u8, g: u8, b: u8 },
}

/// The character for a decimal digit.
pub open spec fn digit_char(d: nat) -> char {
    if d == 0 { '0' }
    else if d == 1 { '1' }
    else if d == 2 { '2' }
    else if d == 3 { '3' }
    else if d == 4 { '4' }
    else if d == 5 { '5' }
    else if d == 6 { '6' }
    else if d == 7 { '7' }
    else if d == 8 { '8' }
    else { '9' }
}

/// The value of a digit character (0 for any other character).
pub open spec fn digit_value(c: char) -> nat {
    if c == '1' { 1 }
    else if c == '2' { 2 }
    else if c == '3' { 3 }
    else if c == '4' { 4 }
    else if c == '5' { 5 }
    else if c == '6' { 6 }
    else if c == '7' { 7 }
    else if c == '8' { 8 }
    else if c == '9' { 9 }
    else { 0 }
}

/// Whether a character is one of '0'..='9'.
pub open spec fn is_digit(c: char) -> bool {
    '0' <= c && c <= '9'
}

/// The shortest decimal spelling of `n`.
pub open spec fn decimal(n: nat) -> Seq<char>
    decreases n,
{
    if n < 10 {
        seq![digit_char(n)]
    } else {
        decimal(n / 10) + seq![digit_char(n % 10)]
    }
}

/// The number that a string of digits spells.
pub open spec fn digits_value(s: Seq<char>) -> nat
    decreases s.len(),
{
    if s.len() == 0 {
        0
    } else {
        digits_value(s.drop_last()) * 10 + digit_value(s.last())
    }
}

/// The two code characters of a preset in the `ESC [ 3x m` form.
pub open spec fn preset_code(p: PresetColor) -> Seq<char> {
    match p {
        PresetColor::Red => seq!['3', '1'],
        PresetColor::Yellow => seq!['3', '3'],
        PresetColor::Blue => seq!['3', '4'],
        PresetColor::Green => seq!['3', '2'],
        PresetColor::Cyan => seq!['3', '6'],
        PresetColor::Magenta => seq!['3', '5'],
    }
}

/// The escape character that opens every control sequence.
pub open spec fn esc() -> char {
    '\x1b'
}

/// The escape sequence that selects a color as the foreground.
pub open spec fn ansi_of(c: Color) -> Seq<char> {
    match c {
        Color::Preset(p) => seq![esc(), '['] + preset_code(p) + seq!['m'],
        Color::RGB { r, g, b } => seq![esc(), '[', '3', '8', ';', '2', ';'] + decimal(r as nat)
            + seq![';'] + decimal(g as nat) + seq![';'] + decimal(b as nat) + seq!['m'],
    }
}

/// The escape sequence that resets all attributes.
pub open spec fn reset_seq() -> Seq<char> {
    seq![esc(), '[', '0', 'm']
}

/// The one-character string for a digit below ten.
fn digit_str(d: u8) -> (r: &'static str)
    requires
        d < 10,
    ensures
        r@ == seq![digit_char(d as nat)],
{
    proof {
        reveal_strlit("0");
        reveal_strlit("1");
        reveal_strlit("2");
        reveal_strlit("3");
        reveal_strlit("4");
        reveal_strlit("5");
        reveal_strlit("6");
        reveal_strlit("7");
        reveal_strlit("8");
        reveal_strlit("9");
    }
    if d == 0 { "0" }
    else if d == 1 { "1" }
    else if d == 2 { "2" }
    else if d == 3 { "3" }
    else if d == 4 { "4" }
    else if d == 5 { "5" }
    else if d == 6 { "6" }
    else if d == 7 { "7" }
    else if d == 8 { "8" }
    else { "9" }
}

/// Appends the decimal spelling of `n`.
pub fn push_decimal(out: &mut String, n: usize)
    ensures
        final(out)@ == old(out)@ + decimal(n as nat),
    decreases n,
{
    if n >= 10 {
        push_decimal(out, n / 10);
    }
    out.append(digit_str((n % 10) as u8));
    assert(out@ =~= old(out)@ + decimal(n as nat)) by {
        if n >= 10 {
            assert(decimal(n as nat) == decimal((n / 10) as nat) + seq![digit_char((n % 10) as nat)]);
        }
    }
}

impl Color {
    /// The escape sequence that selects this color.
    pub fn to_ansi(&self) -> (r: String)
        ensures
            r@ == ansi_of(*self),
    {
        match self {
            Color::Preset(p) => {
                let s = match p {
                    PresetColor::Red => "\x1b[31m",
                    PresetColor::Yellow => "\x1b[33m",
                    PresetColor::Blue => "\x1b[34m",
                    PresetColor::Green => "\x1b[32m",
                    PresetColor::Cyan => "\x1b[36m",
                    PresetColor::Magenta => "\x1b[35m",
                };
                proof {
                    reveal_strlit("\x1b[31m");
                    reveal_strlit("\x1b[33m");
                    reveal_strlit("\x1b[34m");
                    reveal_strlit("\x1b[32m");
                    reveal_strlit("\x1b[36m");
                    reveal_strlit("\x1b[35m");
                }
                assert(s@ =~= ansi_of(*self));
                String::from_str(s)
            },
            Color::RGB { r, g, b } => {
                let mut out = String::from_str("\x1b[38;2;");
                proof {
                    reveal_strlit("\x1b[38;2;");
                    reveal_strlit(";");
                    reveal_strlit("m");
                }
                push_decimal(&mut out, *r as usize);
                out.append(";");
                push_decimal(&mut out, *g as usize);
                out.append(";");
                push_decimal(&mut out, *b as usize);
                out.append("m");
                assert(out@ =~= ansi_of(*self));
                out
            },
        }
    }
}

/// The reset sequence as a string.
pub fn reset() -> (r: String)
    ensures
        r@ == reset_seq(),
{
    proof {
        reveal_strlit("\x1b[0m");
    }
    let r = String::from_str("\x1b[0m");
    assert(r@ =~= reset_seq());
    r
}

/// A select-graphic-rendition sequence: escape, `[`, one or more digits and
/// semicolons, `m`.
pub open spec fn is_sgr(s: Seq<char>) -> bool {
    &&& s.len() >= 4
    &&& s[0] == esc()
    &&& s[1] == '['
    &&& s.last() == 'm'
    &&& forall|k: int| 2 <= k < s.len() - 1 ==> is_digit(#[trigger] s[k]) || s[k] == ';'
}

proof fn lemma_decimal_digits(n: nat)
    ensures
        decimal(n).len() >= 1,
        forall|k: int| 0 <= k < decimal(n).len() ==> is_digit(#[trigger] decimal(n)[k]),
    decreases n,
{
    if n >= 10 {
        lemma_decimal_digits(n / 10);
        let d = decimal(n / 10);
        assert forall|k: int| 0 <= k < decimal(n).len() implies is_digit(#[trigger] decimal(n)[k]) by {
            if k < d.len() {
                assert(decimal(n)[k] == d[k]);
            }
        }
    }
}

proof fn lemma_decimal_value(n: nat)
    ensures
        digits_value(decimal(n)) == n,
    decreases n,
{
    if n < 10 {
        assert(seq![digit_char(n)].drop_last() =~= Seq::<char>::empty());
        assert(digit_value(digit_char(n)) == n);
        assert(digits_value(Seq::<char>::empty()) == 0);
    } else {
        lemma_decimal_value(n / 10);
        assert(decimal(n).drop_last() =~= decimal(n / 10));
        assert(decimal(n).last() == digit_char(n % 10));
        assert(digit_value(digit_char(n % 10)) == n % 10);
        assert((n / 10) * 10 + n % 10 == n) by (nonlinear_arith);
    }
}

/// Two texts free of `;`, each followed by `;` and a rest: equal wholes have
/// equal parts.
proof fn lemma_split_at_semicolon(a: Seq<char>, x: Seq<char>, b: Seq<char>, y: Seq<char>)
    requires
        a + seq![';'] + x == b + seq![';'] + y,
        forall|k: int| 0 <= k < a.len() ==> is_digit(#[trigger] a[k]),
        forall|k: int| 0 <= k < b.len() ==> is_digit(#[trigger] b[k]),
    ensures
        a == b,
        x == y,
{
    let l = a + seq![';'] + x;
    let m = b + seq![';'] + y;
    if a.len() < b.len() {
        assert(l[a.len() as int] == ';');
        assert(m[a.len() as int] == b[a.len() as int]);
    } else if b.len() < a.len() {
        assert(m[b.len() as int] == ';');
        assert(l[b.len() as int] == a[b.len() as int]);
    } else {
        assert(a =~= l.subrange(0, a.len() as int));
        assert(b =~= m.subrange(0, b.len() as int));
        assert(x =~= l.subrange(a.len() as int + 1, l.len() as int));
        assert(y =~= m.subrange(b.len() as int + 1, m.len() as int));
    }
}

proof fn lemma_ansi_well_formed(c: Color)
    ensures
        is_sgr(ansi_of(c)),
        ansi_of(c) != reset_seq(),
{
    let s1 = ansi_of(c);
    assert(s1.len() != reset_seq().len() || s1[2] != reset_seq()[2]);
    match c {
        Color::Preset(p) => {
            assert(is_sgr(s1));
        },
        Color::RGB { r, g, b } => {
            lemma_decimal_digits(r as nat);
            lemma_decimal_digits(g as nat);
            lemma_decimal_digits(b as nat);
            let dr = decimal(r as nat);
            let dg = decimal(g as nat);
            let db = decimal(b as nat);
            assert forall|k: int| 2 <= k < s1.len() - 1 implies is_digit(#[trigger] s1[k]) || s1[k]
                == ';' by {
                let p = 7 + dr.len();
                let q = p + 1 + dg.len();
                if 7 <= k < p {
                    assert(s1[k] == dr[k - 7]);
                } else if p + 1 <= k < q {
                    assert(s1[k] == dg[k - p - 1]);
                } else if q + 1 <= k < s1.len() - 1 {
                    assert(s1[k] == db[k - q - 1]);
                }
            }
        },
    }
}

/// The digit runs of two `38;2;r;g;bm` sequences that are equal, are equal.
proof fn lemma_triple_split(
    a1: Seq<char>,
    b1: Seq<char>,
    c1: Seq<char>,
    a2: Seq<char>,
    b2: Seq<char>,
    c2: Seq<char>,
)
    requires
        a1 + seq![';'] + b1 + seq![';'] + c1 + seq!['m'] == a2 + seq![';'] + b2 + seq![';'] + c2
            + seq!['m'],
        forall|k: int| 0 <= k < a1.len() ==> is_digit(#[trigger] a1[k]),
        forall|k: int| 0 <= k < a2.len() ==> is_digit(#[trigger] a2[k]),
        forall|k: int| 0 <= k < b1.len() ==> is_digit(#[trigger] b1[k]),
        forall|k: int| 0 <= k < b2.len() ==> is_digit(#[trigger] b2[k]),
    ensures
        a1 == a2 && b1 == b2 && c1 == c2,
{
    let v1 = c1 + seq!['m'];
    let v2 = c2 + seq!['m'];
    let u1 = b1 + seq![';'] + v1;
    let u2 = b2 + seq![';'] + v2;
    assert(a1 + seq![';'] + b1 + seq![';'] + c1 + seq!['m'] =~= a1 + seq![';'] + u1);
    assert(a2 + seq![';'] + b2 + seq![';'] + c2 + seq!['m'] =~= a2 + seq![';'] + u2);
    lemma_split_at_semicolon(a1, u1, a2, u2);
    lemma_split_at_semicolon(b1, v1, b2, v2);
    assert(c1 =~= v1.drop_last());
    assert(c2 =~= v2.drop_last());
}

proof fn lemma_rgb_injective(r: u8, g: u8, b: u8, r2: u8, g2: u8, b2: u8)
    requires
        ansi_of(Color::RGB { r, g, b }) == ansi_of(Color::RGB { r: r2, g: g2, b: b2 }),
    ensures
        r == r2 && g == g2 && b == b2,
{
    let s1 = ansi_of(Color::RGB { r, g, b });
    let s2 = ansi_of(Color::RGB { r: r2, g: g2, b: b2 });
    let (dr, dg, db) = (decimal(r as nat), decimal(g as nat), decimal(b as nat));
    let (er, eg, eb) = (decimal(r2 as nat), decimal(g2 as nat), decimal(b2 as nat));
    let t1 = dr + seq![';'] + dg + seq![';'] + db + seq!['m'];
    let t2 = er + seq![';'] + eg + seq![';'] + eb + seq!['m'];
    assert(t1 =~= s1.subrange(7, s1.len() as int));
    assert(t2 =~= s2.subrange(7, s2.len() as int));
    lemma_decimal_digits(r as nat);
    lemma_decimal_digits(g as nat);
    lemma_decimal_digits(r2 as nat);
    lemma_decimal_digits(g2 as nat);
    lemma_triple_split(dr, dg, db, er, eg, eb);
    lemma_decimal_value(r as nat);
    lemma_decimal_value(r2 as nat);
    lemma_decimal_value(g as nat);
    lemma_decimal_value(g2 as nat);
    lemma_decimal_value(b as nat);
    lemma_decimal_value(b2 as nat);
}

/// Every color renders to a well-formed escape sequence that is not the reset
/// sequence, and distinct colors render to distinct sequences.
pub proof fn lemma_ansi_distinct(c1: Color, c2: Color)
    ensures
        is_sgr(ansi_of(c1)),
        ansi_of(c1) != reset_seq(),
        ansi_of(c1) == ansi_of(c2) ==> c1 == c2,
{
    lemma_ansi_well_formed(c1);
    let s1 = ansi_of(c1);
    let s2 = ansi_of(c2);
    if s1 == s2 {
        match (c1, c2) {
            (Color::RGB { r, g, b }, Color::RGB { r: r2, g: g2, b: b2 }) => {
                lemma_rgb_injective(r, g, b, r2, g2, b2);
            },
            (Color::RGB { r, g, b }, Color::Preset(_)) => {
                lemma_decimal_digits(r as nat);
                assert(s1.len() > s2.len());
            },
            (Color::Preset(_), Color::RGB { r, g, b }) => {
                lemma_decimal_digits(r as nat);
                assert(s2.len() > s1.len());
            },
            (Color::Preset(p1), Color::Preset(p2)) => {
                assert(s1[2] == s2[2] && s1[3] == s2[3]);
            },
        }
    }
}

} // verus!
