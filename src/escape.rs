use vstd::prelude::*;
use vstd::std_specs::iter::IteratorSpec;

verus! {

/// Numeral radix used inside bracketed escapes.
#[derive(Clone, Copy, Debug, PartialEq, Eq, Structural)]
pub enum ControlCharacterMode {
    Decimal,
    Hexadecimal,
}

impl ControlCharacterMode {
    pub open spec fn spec_radix(self) -> nat {
        match self {
            ControlCharacterMode::Decimal => 10,
            ControlCharacterMode::Hexadecimal => 16,
        }
    }

    pub fn radix(self) -> (r: u32)
        ensures
            r == self.spec_radix(),
    {
        match self {
            ControlCharacterMode::Decimal => 10,
            ControlCharacterMode::Hexadecimal => 16,
        }
    }
}

/// Bytes written as a bracketed escape: control bytes and the two brackets.
pub open spec fn needs_escape(b: u8) -> bool {
    b < 0x20 || b == 0x3C || b == 0x3E
}

/// The upper-case digit character for a digit value below sixteen.
pub open spec fn digit_char(d: nat) -> char {
    if d < 10 {
        (48 + d) as char
    } else {
        (55 + d) as char
    }
}

/// The numeral of a byte: decimal without leading zeros, or two hexadecimal digits.
pub open spec fn numeral(b: u8, mode: ControlCharacterMode) -> Seq<char> {
    match mode {
        ControlCharacterMode::Decimal => if b < 10 {
            seq![digit_char(b as nat)]
        } else if b < 100 {
            seq![digit_char((b / 10) as nat), digit_char((b % 10) as nat)]
        } else {
            seq![
                digit_char((b / 100) as nat),
                digit_char(((b / 10) % 10) as nat),
                digit_char((b % 10) as nat),
            ]
        },
        ControlCharacterMode::Hexadecimal => seq![
            digit_char((b / 16) as nat),
            digit_char((b % 16) as nat),
        ],
    }
}

/// The text of one byte: `<N>` for a byte that needs escaping, else the character of that code.
pub open spec fn escape_byte(b: u8, mode: ControlCharacterMode) -> Seq<char> {
    if needs_escape(b) {
        seq!['<'] + numeral(b, mode) + seq!['>']
    } else {
        seq![b as char]
    }
}

/// The text of a byte sequence: the texts of its bytes, in order.
pub open spec fn escape_bytes(bs: Seq<u8>, mode: ControlCharacterMode) -> Seq<char>
    decreases bs.len(),
{
    if bs.len() == 0 {
        seq![]
    } else {
        escape_bytes(bs.drop_last(), mode) + escape_byte(bs.last(), mode)
    }
}

/// The value of a digit character in any radix up to 36 (36 or more for a non-digit).
pub open spec fn digit_value(c: char) -> nat {
    let n = c as u32;
    if 48 <= n <= 57 {
        (n - 48) as nat
    } else if 97 <= n <= 122 {
        (n - 87) as nat
    } else if 65 <= n <= 90 {
        (n - 55) as nat
    } else {
        36
    }
}

/// The value of a digit string in the given radix, if every character is a digit of it.
pub open spec fn digits_value(s: Seq<char>, radix: nat) -> Option<nat>
    decreases s.len(),
{
    if s.len() == 0 {
        Some(0)
    } else {
        match digits_value(s.drop_last(), radix) {
            Some(v) => if digit_value(s.last()) < radix {
                Some(v * radix + digit_value(s.last()))
            } else {
                None
            },
            None => None,
        }
    }
}

/// An unsigned byte numeral: an optional `+`, at least one digit, a value below 256.
pub open spec fn parse_byte(s: Seq<char>, radix: nat) -> Option<u8> {
    let d = if s.len() > 0 && s[0] == '+' {
        s.drop_first()
    } else {
        s
    };
    if d.len() == 0 {
        None
    } else {
        match digits_value(d, radix) {
            Some(v) => if v < 256 {
                Some(v as u8)
            } else {
                None
            },
            None => None,
        }
    }
}

/// The bytes an escape body stands for: one byte if it parses, none otherwise.
pub open spec fn escape_body_bytes(body: Seq<char>, mode: ControlCharacterMode) -> Seq<u8> {
    match parse_byte(body, mode.spec_radix()) {
        Some(v) => seq![v],
        None => seq![],
    }
}

/// Decoding of text, left to right. `pending` holds the body of an escape that is open.
/// An escape left open at the end of the text is read as if it were closed there.
pub open spec fn unescape_from(
    t: Seq<char>,
    mode: ControlCharacterMode,
    pending: Option<Seq<char>>,
) -> Seq<u8>
    decreases t.len(),
{
    if t.len() == 0 {
        match pending {
            Some(body) => escape_body_bytes(body, mode),
            None => seq![],
        }
    } else {
        match pending {
            None => if t[0] == '<' {
                unescape_from(t.drop_first(), mode, Some(seq![]))
            } else {
                seq![t[0] as u8] + unescape_from(t.drop_first(), mode, None)
            },
            Some(body) => if t[0] == '>' {
                escape_body_bytes(body, mode) + unescape_from(t.drop_first(), mode, None)
            } else {
                unescape_from(t.drop_first(), mode, Some(body.push(t[0])))
            },
        }
    }
}

/// The bytes a text line stands for.
pub open spec fn unescape(t: Seq<char>, mode: ControlCharacterMode) -> Seq<u8> {
    unescape_from(t, mode, None)
}

/// Relies on String::push: the character is appended.
#[verifier::external_body]
fn push_char(s: &mut String, c: char)
    ensures
        final(s)@ == old(s)@.push(c),
{
    s.push(c)
}

fn digit(d: u8) -> (c: char)
    requires
        d < 16,
    ensures
        c == digit_char(d as nat),
{
    if d < 10 {
        (48 + d) as char
    } else {
        (55 + d) as char
    }
}

fn push_numeral(s: &mut String, b: u8, mode: &ControlCharacterMode)
    ensures
        final(s)@ == old(s)@ + numeral(b, *mode),
{
    match mode {
        ControlCharacterMode::Decimal => {
            if b >= 100 {
                push_char(s, digit(b / 100));
            }
            if b >= 10 {
                push_char(s, digit((b / 10) % 10));
            }
            push_char(s, digit(b % 10));
        },
        ControlCharacterMode::Hexadecimal => {
            push_char(s, digit(b / 16));
            push_char(s, digit(b % 16));
        },
    }
    assert(final(s)@ =~= old(s)@ + numeral(b, *mode));
}

/// Writes a byte sequence as text: each byte that needs escaping becomes `<N>`, with `N`
/// in the radix of `control_character_mode`; every other byte becomes the character with
/// that code.
pub fn encode_special_bytes(input: &[u8], control_character_mode: &ControlCharacterMode) -> (r:
    String)
    ensures
        r@ == escape_bytes(input@, *control_character_mode),
{
    let mut out = String::new();
    let mut i: usize = 0;
    while i < input.len()
        invariant
            i <= input.len(),
            out@ == escape_bytes(input@.take(i as int), *control_character_mode),
        decreases input.len() - i,
    {
        let b = input[i];
        if b < 0x20 || b == 0x3C || b == 0x3E {
            push_char(&mut out, '<');
            push_numeral(&mut out, b, control_character_mode);
            push_char(&mut out, '>');
        } else {
            push_char(&mut out, b as char);
        }
        assert(input@.take(i + 1).drop_last() =~= input@.take(i as int));
        assert(out@ =~= escape_bytes(input@.take(i as int), *control_character_mode)
            + escape_byte(b, *control_character_mode));
        i = i + 1;
    }
    assert(input@.take(i as int) =~= input@);
    out
}

fn digit_of(c: char) -> (d: u32)
    ensures
        d == digit_value(c),
{
    let n = c as u32;
    if 48 <= n && n <= 57 {
        n - 48
    } else if 97 <= n && n <= 122 {
        n - 87
    } else if 65 <= n && n <= 90 {
        n - 55
    } else {
        36
    }
}

/// Reads the body of an escape as an unsigned byte in the given radix.
fn parse_escape_body(body: &Vec<char>, radix: u32) -> (r: Option<u8>)
    requires
        radix == 10 || radix == 16,
    ensures
        r == parse_byte(body@, radix as nat),
{
    let n = body.len();
    let start: usize = if n > 0 && body[0] == '+' {
        1
    } else {
        0
    };
    let ghost d = if n > 0 && body@[0] == '+' {
        body@.drop_first()
    } else {
        body@
    };
    assert(d =~= body@.subrange(start as int, n as int));
    if start == n {
        return None;
    }
    // `acc` is the value read so far, held at 256 once it no longer fits a byte.
    let mut acc: u32 = 0;
    let mut valid = true;
    let mut i: usize = start;
    while i < n
        invariant
            start <= i <= n,
            n == body.len(),
            radix == 10 || radix == 16,
            acc <= 256,
            valid == digits_value(body@.subrange(start as int, i as int), radix as nat) is Some,
            valid ==> ({
                let v = digits_value(body@.subrange(start as int, i as int), radix as nat)->0;
                if v < 256 {
                    acc == v
                } else {
                    acc == 256
                }
            }),
        decreases n - i,
    {
        let ghost prev = body@.subrange(start as int, i as int);
        let ghost next = body@.subrange(start as int, i + 1);
        assert(next.drop_last() =~= prev);
        assert(next.last() == body@[i as int]);
        let dv = digit_of(body[i]);
        if dv >= radix {
            valid = false;
        } else if valid {
            let ghost v = digits_value(prev, radix as nat)->0;
            if acc == 256 {
                assert(v * radix + dv >= 256) by (nonlinear_arith)
                    requires
                        v >= 256,
                        radix >= 10,
                ;
            } else {
                let m = acc * radix + dv;
                if m < 256 {
                    acc = m;
                } else {
                    acc = 256;
                }
            }
        }
        i = i + 1;
    }
    if valid && acc < 256 {
        Some(acc as u8)
    } else {
        None
    }
}

/// Reads a text line back into bytes: `<N>` with `N` a byte numeral in the radix of
/// `control_character_mode` gives that byte, an escape whose body is no such numeral gives
/// nothing, and every other character gives its code truncated to a byte.
pub fn decode_special_strings(input: &str, control_character_mode: &ControlCharacterMode) -> (r:
    Vec<u8>)
    ensures
        r@ == unescape(input@, *control_character_mode),
{
    broadcast use vstd::string::group_string_axioms;

    let radix = control_character_mode.radix();
    let mut output: Vec<u8> = Vec::new();
    let mut chars = input.chars();
    let mut in_escape = false;
    let mut body: Vec<char> = Vec::new();
    let ghost mut seen: nat = 0;
    loop
        invariant_except_break
            output@ + unescape_from(
                chars.remaining(),
                *control_character_mode,
                if in_escape {
                    Some(body@)
                } else {
                    None
                },
            ) == unescape(input@, *control_character_mode),
        invariant
            radix == control_character_mode.spec_radix(),
            chars.remaining() == input@.skip(seen as int),
            seen <= input@.len(),
        ensures
            output@ == unescape(input@, *control_character_mode),
        decreases input@.len() - seen,
    {
        let ghost rem = chars.remaining();
        match chars.next() {
            Some(c) => {
                assert(rem.drop_first() =~= input@.skip(seen + 1 as int));
                proof {
                    seen = seen + 1;
                }
                if in_escape {
                    if c == '>' {
                        let parsed = parse_escape_body(&body, radix);
                        if let Some(v) = parsed {
                            output.push(v);
                        }
                        in_escape = false;
                        body = Vec::new();
                    } else {
                        body.push(c);
                    }
                } else if c == '<' {
                    in_escape = true;
                    body = Vec::new();
                    assert(body@ =~= Seq::<char>::empty());
                } else {
                    output.push(#[verifier::truncate] (c as u8));
                }
            },
            None => {
                assert(rem.len() == 0);
                if in_escape {
                    let parsed = parse_escape_body(&body, radix);
                    if let Some(v) = parsed {
                        output.push(v);
                    }
                }
                assert(output@ =~= output@ + Seq::<u8>::empty());
                break;
            },
        }
    }
    output
}

proof fn lemma_escape_bytes_front(x: u8, rest: Seq<u8>, mode: ControlCharacterMode)
    ensures
        escape_bytes(seq![x] + rest, mode) == escape_byte(x, mode) + escape_bytes(rest, mode),
    decreases rest.len(),
{
    let whole = seq![x] + rest;
    if rest.len() == 0 {
        assert(whole.drop_last() =~= Seq::<u8>::empty());
        assert(escape_bytes(Seq::<u8>::empty(), mode) == Seq::<char>::empty());
        assert(escape_byte(x, mode) + Seq::<char>::empty() =~= escape_byte(x, mode));
    } else {
        lemma_escape_bytes_front(x, rest.drop_last(), mode);
        assert(whole.drop_last() =~= seq![x] + rest.drop_last());
        assert(whole.last() == rest.last());
        assert(escape_bytes(whole, mode) =~= escape_byte(x, mode) + escape_bytes(rest, mode));
    }
}

proof fn lemma_digit(d: nat)
    requires
        d < 16,
    ensures
        digit_value(digit_char(d)) == d,
        digit_char(d) != '>',
        digit_char(d) != '+',
{
}

/// The characters of `ds` are gathered into an open escape body, up to the next `>`.
proof fn lemma_gather_body(
    ds: Seq<char>,
    body: Seq<char>,
    rest: Seq<char>,
    mode: ControlCharacterMode,
)
    requires
        forall|k: int| 0 <= k < ds.len() ==> ds[k] != '>',
    ensures
        unescape_from(ds + rest, mode, Some(body)) == unescape_from(rest, mode, Some(body + ds)),
    decreases ds.len(),
{
    if ds.len() == 0 {
        assert(ds + rest =~= rest);
        assert(body + ds =~= body);
    } else {
        let t = ds + rest;
        assert(t.drop_first() =~= ds.drop_first() + rest);
        lemma_gather_body(ds.drop_first(), body.push(ds[0]), rest, mode);
        assert(body.push(ds[0]) + ds.drop_first() =~= body + ds);
    }
}

/// One escaped byte, written in `m1` and read in `m2`, gives what its numeral parses to.
proof fn lemma_unescape_one(x: u8, rest: Seq<char>, m1: ControlCharacterMode, m2: ControlCharacterMode)
    ensures
        unescape_from(escape_byte(x, m1) + rest, m2, None) == (if needs_escape(x) {
            escape_body_bytes(numeral(x, m1), m2)
        } else {
            seq![x]
        }) + unescape_from(rest, m2, None),
{
    let t = escape_byte(x, m1) + rest;
    let num = numeral(x, m1);
    if needs_escape(x) {
        assert(t[0] == '<');
        assert forall|k: int| 0 <= k < num.len() implies num[k] != '>' by {
            lemma_digit((x / 100) as nat);
            lemma_digit(((x / 10) % 10) as nat);
            lemma_digit((x % 10) as nat);
            lemma_digit((x / 16) as nat);
            lemma_digit((x % 16) as nat);
        }
        let after = seq!['>'] + rest;
        assert(t.drop_first() =~= num + after);
        lemma_gather_body(num, Seq::<char>::empty(), after, m2);
        assert(Seq::<char>::empty() + num =~= num);
        assert(after.drop_first() =~= rest);
    } else {
        assert(t[0] == x as char);
        assert(t.drop_first() =~= rest);
        assert((x as char) as u8 == x);
    }
}

/// The value of a string of one, two or three digits.
proof fn lemma_digits_value_short(num: Seq<char>, r: nat)
    requires
        1 <= num.len() <= 3,
        forall|k: int| 0 <= k < num.len() ==> digit_value(#[trigger] num[k]) < r,
    ensures
        num.len() == 1 ==> digits_value(num, r) == Some(digit_value(num[0])),
        num.len() == 2 ==> digits_value(num, r) == Some(
            digit_value(num[0]) * r + digit_value(num[1]),
        ),
        num.len() == 3 ==> digits_value(num, r) == Some(
            (digit_value(num[0]) * r + digit_value(num[1])) * r + digit_value(num[2]),
        ),
{
    let p0 = num.take(0);
    let p1 = num.take(1);
    let p2 = num.take(2);
    assert(p0 =~= Seq::<char>::empty());
    assert(digits_value(p0, r) == Some(0nat));
    assert(p1.drop_last() =~= p0);
    assert(digits_value(p1, r) == Some(0 * r + digit_value(num[0])));
    assert(0 * r + digit_value(num[0]) == digit_value(num[0])) by (nonlinear_arith);
    if num.len() == 1 {
        assert(p1 =~= num);
    } else {
        assert(p2.drop_last() =~= p1);
        if num.len() == 2 {
            assert(p2 =~= num);
        } else {
            assert(num.drop_last() =~= p2);
            assert(digits_value(p2, r) == Some(digit_value(num[0]) * r + digit_value(num[1])));
            assert(num.last() == num[2]);
        }
    }
}

/// A numeral reads back, in its own radix, as the byte it was written from.
#[verifier::spinoff_prover]
proof fn lemma_numeral_parses(x: u8, mode: ControlCharacterMode)
    ensures
        parse_byte(numeral(x, mode), mode.spec_radix()) == Some(x),
{
    let num = numeral(x, mode);
    let r = mode.spec_radix();
    lemma_digit((x / 100) as nat);
    lemma_digit(((x / 10) % 10) as nat);
    lemma_digit((x % 10) as nat);
    lemma_digit((x / 16) as nat);
    lemma_digit((x % 16) as nat);
    assert(num[0] != '+');
    lemma_digits_value_short(num, r);
    let v = digits_value(num, r)->0;
    match mode {
        ControlCharacterMode::Decimal => {
            if x < 10 {
            } else if x < 100 {
                assert(v == (x / 10) * 10 + x % 10);
            } else {
                assert(v == ((x / 100) * 10 + (x / 10) % 10) * 10 + x % 10);
                assert(((x / 100) * 10 + (x / 10) % 10) * 10 + x % 10 == x) by (bit_vector);
            }
        },
        ControlCharacterMode::Hexadecimal => {
            assert(v == (x / 16) * 16 + x % 16);
        },
    }
}

proof fn lemma_decimal_numeral_in_hex(x: u8)
    requires
        needs_escape(x),
    ensures
        parse_byte(numeral(x, ControlCharacterMode::Decimal), 16) == Some(
            misread_decimal_as_hex(x),
        ),
{
    let num = numeral(x, ControlCharacterMode::Decimal);
    assert(x < 100);
    lemma_digit((x / 10) as nat);
    lemma_digit((x % 10) as nat);
    assert(num[0] != '+');
    lemma_digits_value_short(num, 16);
    let v = digits_value(num, 16)->0;
    if x >= 10 {
        assert(v == (x / 10) * 16 + x % 10);
    }
}

/// Decimal numerals of escaped bytes read as hexadecimal: the digits keep their places.
pub open spec fn misread_decimal_as_hex(x: u8) -> u8 {
    if needs_escape(x) {
        (16 * (x / 10) + x % 10) as u8
    } else {
        x
    }
}

/// Decoding in its own radix undoes encoding: every byte sequence comes back unchanged.
pub proof fn lemma_round_trip(b: Seq<u8>, mode: ControlCharacterMode)
    ensures
        unescape(escape_bytes(b, mode), mode) == b,
    decreases b.len(),
{
    if b.len() == 0 {
        assert(escape_bytes(b, mode) =~= Seq::<char>::empty());
    } else {
        let tail = b.drop_first();
        assert(b =~= seq![b[0]] + tail);
        lemma_escape_bytes_front(b[0], tail, mode);
        lemma_unescape_one(b[0], escape_bytes(tail, mode), mode, mode);
        lemma_numeral_parses(b[0], mode);
        lemma_round_trip(tail, mode);
        assert(unescape(escape_bytes(b, mode), mode) =~= seq![b[0]] + tail);
    }
}

proof fn lemma_cross_mode_map(b: Seq<u8>)
    ensures
        unescape(escape_bytes(b, ControlCharacterMode::Decimal), ControlCharacterMode::Hexadecimal)
            == b.map_values(|x: u8| misread_decimal_as_hex(x)),
    decreases b.len(),
{
    let dec = ControlCharacterMode::Decimal;
    let hex = ControlCharacterMode::Hexadecimal;
    if b.len() == 0 {
        assert(escape_bytes(b, dec) =~= Seq::<char>::empty());
        assert(b.map_values(|x: u8| misread_decimal_as_hex(x)) =~= Seq::<u8>::empty());
    } else {
        let tail = b.drop_first();
        assert(b =~= seq![b[0]] + tail);
        lemma_escape_bytes_front(b[0], tail, dec);
        lemma_unescape_one(b[0], escape_bytes(tail, dec), dec, hex);
        if needs_escape(b[0]) {
            lemma_decimal_numeral_in_hex(b[0]);
        }
        lemma_cross_mode_map(tail);
        assert(unescape(escape_bytes(b, dec), hex) =~= seq![misread_decimal_as_hex(b[0])]
            + tail.map_values(|x: u8| misread_decimal_as_hex(x)));
        assert(b.map_values(|x: u8| misread_decimal_as_hex(x)) =~= seq![
            misread_decimal_as_hex(b[0]),
        ] + tail.map_values(|x: u8| misread_decimal_as_hex(x)));
    }
}

/// Text written in decimal and read as hexadecimal gives the bytes back exactly when no
/// escaped byte of them is 10 or more: each such byte is read as a different value.
pub proof fn lemma_cross_mode_mismatch(b: Seq<u8>)
    ensures
        unescape(escape_bytes(b, ControlCharacterMode::Decimal), ControlCharacterMode::Hexadecimal)
            == b <==> forall|i: int| 0 <= i < b.len() ==> !(needs_escape(#[trigger] b[i]) && b[i] >= 10),
{
    lemma_cross_mode_map(b);
    let m = b.map_values(|x: u8| misread_decimal_as_hex(x));
    if forall|i: int| 0 <= i < b.len() ==> !(needs_escape(#[trigger] b[i]) && b[i] >= 10) {
        assert(m =~= b);
    } else {
        let i = choose|i: int| 0 <= i < b.len() && needs_escape(#[trigger] b[i]) && b[i] >= 10;
        assert(m[i] != b[i]);
    }
}

proof fn lemma_digits_are_digits(s: Seq<char>, radix: nat)
    requires
        digits_value(s, radix) is Some,
    ensures
        forall|k: int| 0 <= k < s.len() ==> digit_value(#[trigger] s[k]) < radix,
    decreases s.len(),
{
    if s.len() > 0 {
        lemma_digits_are_digits(s.drop_last(), radix);
        assert forall|k: int| 0 <= k < s.len() implies digit_value(#[trigger] s[k]) < radix by {
            if k < s.len() - 1 {
                assert(s[k] == s.drop_last()[k]);
            }
        }
    }
}

/// An escape whose numeral is well formed but names a value past one byte contributes no
/// byte: the text decodes as if the escape were not there.
pub proof fn lemma_oversized_escape_dropped(
    numeral: Seq<char>,
    rest: Seq<char>,
    mode: ControlCharacterMode,
)
    requires
        digits_value(numeral, mode.spec_radix()) matches Some(v) && v >= 256,
    ensures
        unescape(seq!['<'] + numeral + seq!['>'] + rest, mode) == unescape(rest, mode),
{
    let r = mode.spec_radix();
    lemma_digits_are_digits(numeral, r);
    assert(digit_value('>') == 36);
    assert(digit_value('+') == 36);
    assert forall|k: int| 0 <= k < numeral.len() implies numeral[k] != '>' by {
        assert(digit_value(numeral[k]) < r);
    }
    assert(numeral.len() > 0) by {
        if numeral.len() == 0 {
            assert(digits_value(numeral, r) == Some(0nat));
        }
    }
    assert(numeral[0] != '+') by {
        assert(digit_value(numeral[0]) < r);
    }
    let t = seq!['<'] + numeral + seq!['>'] + rest;
    let after = seq!['>'] + rest;
    assert(t.drop_first() =~= numeral + after);
    lemma_gather_body(numeral, Seq::<char>::empty(), after, mode);
    assert(Seq::<char>::empty() + numeral =~= numeral);
    assert(after.drop_first() =~= rest);
    assert(parse_byte(numeral, r) is None);
    assert(escape_body_bytes(numeral, mode) =~= Seq::<u8>::empty());
    assert(Seq::<u8>::empty() + unescape_from(rest, mode, None) =~= unescape_from(rest, mode, None));
}

} // verus!
