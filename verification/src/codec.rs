//! The export codec: a deterministic, field-labelled text encoding of
//! the whole session, and its decoder.  Every field is written as
//! `label` followed by a decimal length, `:`, the payload, and a
//! newline; the image bytes are written in lowercase hexadecimal; the
//! records follow a `tiles=` count line, each as a name field and two
//! coordinate lines.  Decoding an encoded session yields exactly the
//! session that was encoded.
use crate::digits::{
    all_dec_digits, chars_val, dec_chars, dec_digit_char, digit_of_char, digit_str, digit_val,
    is_dec_digit, lemma_chars_val_dec_chars, lemma_dec_chars_digits, lemma_dec_digit_char_val,
};
use crate::{StoreModel, TileMetadata, TileModel, TilesetInformation};
use vstd::prelude::*;

verus! {

// ---------------------------------------------------------------------
// Hexadecimal digits for the image payload.
// ---------------------------------------------------------------------
/// True exactly of the sixteen lowercase hexadecimal digit characters.
pub open spec fn is_hex_digit(c: char) -> bool {
    is_dec_digit(c) || c == 'a' || c == 'b' || c == 'c' || c == 'd' || c == 'e' || c == 'f'
}

/// Numeric value of a hexadecimal digit character.
pub open spec fn hex_val(c: char) -> nat {
    if c == 'a' {
        10
    } else if c == 'b' {
        11
    } else if c == 'c' {
        12
    } else if c == 'd' {
        13
    } else if c == 'e' {
        14
    } else if c == 'f' {
        15
    } else {
        digit_val(c)
    }
}

/// The hexadecimal digit character of a value below sixteen.
pub open spec fn hex_digit_char(d: nat) -> char {
    if d == 10 {
        'a'
    } else if d == 11 {
        'b'
    } else if d == 12 {
        'c'
    } else if d == 13 {
        'd'
    } else if d == 14 {
        'e'
    } else if d == 15 {
        'f'
    } else {
        dec_digit_char(d)
    }
}

/// Two lowercase hexadecimal characters for each byte, high nibble
/// first.
pub open spec fn hex_chars(b: Seq<u8>) -> Seq<char>
    decreases b.len(),
{
    if b.len() == 0 {
        Seq::<char>::empty()
    } else {
        seq![
            hex_digit_char((b[0] / 16) as nat),
            hex_digit_char((b[0] % 16) as nat),
        ] + hex_chars(b.drop_first())
    }
}

/// The byte written as the hexadecimal pair `c1 c2`.
pub open spec fn hex_pair_val(c1: char, c2: char) -> u8 {
    (hex_val(c1) * 16 + hex_val(c2)) as u8
}

/// Decodes a sequence of hexadecimal pairs back to bytes; defined
/// exactly when the length is even and every character is a lowercase
/// hexadecimal digit.
pub open spec fn hex_decode(s: Seq<char>) -> Option<Seq<u8>>
    decreases s.len(),
{
    if s.len() == 0 {
        Option::Some(Seq::<u8>::empty())
    } else if s.len() >= 2 && is_hex_digit(s[0]) && is_hex_digit(s[1]) {
        match hex_decode(s.skip(2)) {
            Option::Some(r) => Option::Some(seq![hex_pair_val(s[0], s[1])] + r),
            Option::None => Option::None,
        }
    } else {
        Option::None
    }
}

// ---------------------------------------------------------------------
// The encoded form.
// ---------------------------------------------------------------------
/// A length-prefixed text field: label, decimal character count, `:`,
/// the text itself, newline.
pub open spec fn text_field(label: Seq<char>, v: Seq<char>) -> Seq<char> {
    label + dec_chars(v.len()) + seq![':'] + v + seq!['\n']
}

/// A length-prefixed byte field: label, decimal byte count, `:`, two
/// hexadecimal characters per byte, newline.
pub open spec fn bytes_field(label: Seq<char>, b: Seq<u8>) -> Seq<char> {
    label + dec_chars(b.len()) + seq![':'] + hex_chars(b) + seq!['\n']
}

/// A bare number line: label, decimal value, newline.
pub open spec fn num_field(label: Seq<char>, n: nat) -> Seq<char> {
    label + dec_chars(n) + seq!['\n']
}

/// One record: its name as a text field, then its two cell coordinates.
pub open spec fn tile_chars(t: TileModel) -> Seq<char> {
    text_field("name="@, t.name) + num_field("x="@, t.x as nat) + num_field("y="@, t.y as nat)
}

/// All records, in order.
pub open spec fn tiles_chars(ts: Seq<TileModel>) -> Seq<char>
    decreases ts.len(),
{
    if ts.len() == 0 {
        Seq::<char>::empty()
    } else {
        tile_chars(ts[0]) + tiles_chars(ts.drop_first())
    }
}

/// The full encoded session: the four grid fields as typed, the image
/// path, the image bytes, the record count, then every record in
/// insertion order.
pub open spec fn spec_serialize(m: StoreModel) -> Seq<char> {
    text_field("rows="@, m.rows) + text_field("columns="@, m.columns) + text_field(
        "width_px="@,
        m.width_px,
    ) + text_field("height_px="@, m.height_px) + text_field("image_path="@, m.image_path)
        + bytes_field("image_raw="@, m.image_raw) + num_field("tiles="@, m.tiles.len())
        + tiles_chars(m.tiles)
}

// ---------------------------------------------------------------------
// The decoder, at the specification level.
// ---------------------------------------------------------------------
/// Greedy decimal scan: reads digits from the front into `acc` and
/// returns the value together with the unread remainder.
pub open spec fn parse_nat_rec(s: Seq<char>, acc: nat) -> (nat, Seq<char>)
    decreases s.len(),
{
    if s.len() > 0 && is_dec_digit(s[0]) {
        parse_nat_rec(s.drop_first(), acc * 10 + digit_val(s[0]))
    } else {
        (acc, s)
    }
}

/// Reads a decimal number: defined exactly when the input starts with a
/// digit; consumes every leading digit.
pub open spec fn parse_nat(s: Seq<char>) -> Option<(nat, Seq<char>)> {
    if s.len() > 0 && is_dec_digit(s[0]) {
        Option::Some(parse_nat_rec(s, 0))
    } else {
        Option::None
    }
}

/// Reads an exact literal from the front.
pub open spec fn parse_lit(s: Seq<char>, lit: Seq<char>) -> Option<Seq<char>> {
    if lit.len() <= s.len() && s.take(lit.len() as int) == lit {
        Option::Some(s.skip(lit.len() as int))
    } else {
        Option::None
    }
}

/// Reads one length-prefixed text field.
pub open spec fn parse_text_field(s: Seq<char>, label: Seq<char>) -> Option<
    (Seq<char>, Seq<char>),
> {
    match parse_lit(s, label) {
        Option::Some(s1) => match parse_nat(s1) {
            Option::Some((n, s2)) => match parse_lit(s2, seq![':']) {
                Option::Some(s3) => if n + 1 <= s3.len() && s3[n as int] == '\n' {
                    Option::Some((s3.take(n as int), s3.skip(n as int + 1)))
                } else {
                    Option::None
                },
                Option::None => Option::None,
            },
            Option::None => Option::None,
        },
        Option::None => Option::None,
    }
}

/// Reads one length-prefixed byte field written in hexadecimal.
pub open spec fn parse_bytes_field(s: Seq<char>, label: Seq<char>) -> Option<(Seq<u8>, Seq<char>)> {
    match parse_lit(s, label) {
        Option::Some(s1) => match parse_nat(s1) {
            Option::Some((n, s2)) => match parse_lit(s2, seq![':']) {
                Option::Some(s3) => if 2 * n + 1 <= s3.len() && s3[2 * n as int] == '\n' {
                    match hex_decode(s3.take(2 * n as int)) {
                        Option::Some(b) => Option::Some((b, s3.skip(2 * n as int + 1))),
                        Option::None => Option::None,
                    }
                } else {
                    Option::None
                },
                Option::None => Option::None,
            },
            Option::None => Option::None,
        },
        Option::None => Option::None,
    }
}

/// Reads one bare number line whose value must not exceed `bound`.
pub open spec fn parse_num_field(s: Seq<char>, label: Seq<char>, bound: nat) -> Option<
    (nat, Seq<char>),
> {
    match parse_lit(s, label) {
        Option::Some(s1) => match parse_nat(s1) {
            Option::Some((n, s2)) => if n <= bound && s2.len() >= 1 && s2[0] == '\n' {
                Option::Some((n, s2.skip(1)))
            } else {
                Option::None
            },
            Option::None => Option::None,
        },
        Option::None => Option::None,
    }
}

/// Reads the record count line (no bound beyond what the input can
/// actually hold: a count larger than the remaining text fails later).
pub open spec fn parse_count(s: Seq<char>, label: Seq<char>) -> Option<(nat, Seq<char>)> {
    match parse_lit(s, label) {
        Option::Some(s1) => match parse_nat(s1) {
            Option::Some((n, s2)) => if s2.len() >= 1 && s2[0] == '\n' {
                Option::Some((n, s2.skip(1)))
            } else {
                Option::None
            },
            Option::None => Option::None,
        },
        Option::None => Option::None,
    }
}

/// Reads one record.
pub open spec fn parse_tile(s: Seq<char>) -> Option<(TileModel, Seq<char>)> {
    match parse_text_field(s, "name="@) {
        Option::Some((name, s1)) => match parse_num_field(s1, "x="@, i32::MAX as nat) {
            Option::Some((x, s2)) => match parse_num_field(s2, "y="@, i32::MAX as nat) {
                Option::Some((y, s3)) => Option::Some(
                    (TileModel { name, x: x as int, y: y as int }, s3),
                ),
                Option::None => Option::None,
            },
            Option::None => Option::None,
        },
        Option::None => Option::None,
    }
}

/// Reads exactly `n` records.
pub open spec fn parse_tiles(s: Seq<char>, n: nat) -> Option<(Seq<TileModel>, Seq<char>)>
    decreases n,
{
    if n == 0 {
        Option::Some((Seq::<TileModel>::empty(), s))
    } else {
        match parse_tile(s) {
            Option::Some((t, s1)) => match parse_tiles(s1, (n - 1) as nat) {
                Option::Some((ts, s2)) => Option::Some((seq![t] + ts, s2)),
                Option::None => Option::None,
            },
            Option::None => Option::None,
        }
    }
}

/// Decodes a full encoded session; defined exactly on the output of the
/// encoder, with nothing before or after it.
pub open spec fn spec_deserialize(s: Seq<char>) -> Option<StoreModel> {
    match parse_text_field(s, "rows="@) {
        Option::Some((rows, s1)) => match parse_text_field(s1, "columns="@) {
            Option::Some((columns, s2)) => match parse_text_field(s2, "width_px="@) {
                Option::Some((width_px, s3)) => match parse_text_field(s3, "height_px="@) {
                    Option::Some((height_px, s4)) => match parse_text_field(s4, "image_path="@) {
                        Option::Some((image_path, s5)) => match parse_bytes_field(
                            s5,
                            "image_raw="@,
                        ) {
                            Option::Some((image_raw, s6)) => match parse_count(s6, "tiles="@) {
                                Option::Some((n, s7)) => match parse_tiles(s7, n) {
                                    Option::Some((tiles, s8)) => if s8.len() == 0 {
                                        Option::Some(
                                            StoreModel {
                                                rows,
                                                columns,
                                                width_px,
                                                height_px,
                                                tiles,
                                                image_path,
                                                image_raw,
                                            },
                                        )
                                    } else {
                                        Option::None
                                    },
                                    Option::None => Option::None,
                                },
                                Option::None => Option::None,
                            },
                            Option::None => Option::None,
                        },
                        Option::None => Option::None,
                    },
                    Option::None => Option::None,
                },
                Option::None => Option::None,
            },
            Option::None => Option::None,
        },
        Option::None => Option::None,
    }
}

// ---------------------------------------------------------------------
// Decoding inverts encoding.
// ---------------------------------------------------------------------
/// The greedy scan never lowers the accumulator and never grows the
/// remainder.
proof fn lemma_parse_nat_rec_bounds(s: Seq<char>, acc: nat)
    ensures
        parse_nat_rec(s, acc).0 >= acc,
        parse_nat_rec(s, acc).1.len() <= s.len(),
    decreases s.len(),
{
    if s.len() > 0 && is_dec_digit(s[0]) {
        lemma_parse_nat_rec_bounds(s.drop_first(), acc * 10 + digit_val(s[0]));
    }
}

/// Scanning a digit block followed by anything reads the block into the
/// accumulator and goes on with the remainder.
proof fn lemma_parse_nat_rec_concat(digits: Seq<char>, rest: Seq<char>, acc: nat)
    requires
        all_dec_digits(digits),
    ensures
        parse_nat_rec(digits + rest, acc) == parse_nat_rec(rest, chars_val(digits, acc)),
    decreases digits.len(),
{
    reveal_with_fuel(parse_nat_rec, 2);
    reveal_with_fuel(chars_val, 2);
    if digits.len() == 0 {
        assert(digits + rest =~= rest);
    } else {
        assert(is_dec_digit(digits[0]));
        assert((digits + rest)[0] == digits[0]);
        assert((digits + rest).drop_first() =~= digits.drop_first() + rest);
        assert(all_dec_digits(digits.drop_first())) by {
            assert forall|i: int| 0 <= i < digits.drop_first().len() implies is_dec_digit(
                #[trigger] digits.drop_first()[i],
            ) by {
                assert(digits.drop_first()[i] == digits[i + 1]);
            }
        }
        lemma_parse_nat_rec_concat(digits.drop_first(), rest, acc * 10 + digit_val(digits[0]));
    }
}

/// Reading a number written in canonical decimal, followed by anything
/// that does not start with a digit, gives back the number.
proof fn lemma_parse_dec(n: nat, rest: Seq<char>)
    requires
        rest.len() == 0 || !is_dec_digit(rest[0]),
    ensures
        parse_nat(dec_chars(n) + rest) == Option::Some((n, rest)),
{
    lemma_dec_chars_digits(n);
    lemma_chars_val_dec_chars(n);
    lemma_parse_nat_rec_concat(dec_chars(n), rest, 0);
    assert((dec_chars(n) + rest)[0] == dec_chars(n)[0]);
    assert(is_dec_digit(dec_chars(n)[0]));
}

/// Reading a literal off the front of itself-plus-remainder succeeds.
proof fn lemma_parse_lit(lit: Seq<char>, rest: Seq<char>)
    ensures
        parse_lit(lit + rest, lit) == Option::Some(rest),
{
    assert((lit + rest).take(lit.len() as int) =~= lit);
    assert((lit + rest).skip(lit.len() as int) =~= rest);
}

/// Decoding an encoded text field gives back its text.
proof fn lemma_parse_text_field(label: Seq<char>, v: Seq<char>, rest: Seq<char>)
    ensures
        parse_text_field(text_field(label, v) + rest, label) == Option::Some((v, rest)),
{
    let t3 = v + seq!['\n'] + rest;
    let t2 = seq![':'] + t3;
    let t1 = dec_chars(v.len()) + t2;
    assert(text_field(label, v) + rest =~= label + t1);
    lemma_parse_lit(label, t1);
    assert(t2[0] == ':');
    lemma_parse_dec(v.len(), t2);
    lemma_parse_lit(seq![':'], t3);
    assert(t3.len() == v.len() + 1 + rest.len());
    assert(t3[v.len() as int] == '\n');
    assert(t3.take(v.len() as int) =~= v);
    assert(t3.skip(v.len() as int + 1) =~= rest);
}

/// Hexadecimal digit characters round-trip through their value.
proof fn lemma_hex_digit_char_val(d: nat)
    requires
        d < 16,
    ensures
        is_hex_digit(hex_digit_char(d)),
        hex_val(hex_digit_char(d)) == d,
{
    if d < 10 {
        lemma_dec_digit_char_val(d);
    }
}

/// The hexadecimal form has two characters per byte.
proof fn lemma_hex_chars_len(b: Seq<u8>)
    ensures
        hex_chars(b).len() == 2 * b.len(),
    decreases b.len(),
{
    if b.len() > 0 {
        lemma_hex_chars_len(b.drop_first());
    }
}

/// Decoding the hexadecimal form of any byte sequence gives it back.
proof fn lemma_hex_decode_encode(b: Seq<u8>)
    ensures
        hex_decode(hex_chars(b)) == Option::Some(b),
    decreases b.len(),
{
    if b.len() == 0 {
    } else {
        let hi = (b[0] / 16) as nat;
        let lo = (b[0] % 16) as nat;
        assert(b[0] / 16 < 16) by {
            vstd::arithmetic::div_mod::lemma_multiply_divide_lt(b[0] as int, 16, 16);
        }
        vstd::arithmetic::div_mod::lemma_mod_bound(b[0] as int, 16);
        lemma_hex_digit_char_val(hi);
        lemma_hex_digit_char_val(lo);
        lemma_hex_decode_encode(b.drop_first());
        lemma_hex_chars_len(b.drop_first());
        let s = hex_chars(b);
        let pair = seq![hex_digit_char(hi), hex_digit_char(lo)];
        assert(s == pair + hex_chars(b.drop_first()));
        assert(s[0] == hex_digit_char(hi) && s[1] == hex_digit_char(lo));
        assert(s.skip(2) =~= hex_chars(b.drop_first()));
        assert(hex_pair_val(s[0], s[1]) == b[0]) by {
            vstd::arithmetic::div_mod::lemma_fundamental_div_mod(b[0] as int, 16);
        }
        assert(seq![b[0]] + b.drop_first() =~= b);
    }
}

/// Decoding an encoded byte field gives back its bytes.
proof fn lemma_parse_bytes_field(label: Seq<char>, b: Seq<u8>, rest: Seq<char>)
    ensures
        parse_bytes_field(bytes_field(label, b) + rest, label) == Option::Some((b, rest)),
{
    let t3 = hex_chars(b) + seq!['\n'] + rest;
    let t2 = seq![':'] + t3;
    let t1 = dec_chars(b.len()) + t2;
    assert(bytes_field(label, b) + rest =~= label + t1);
    lemma_parse_lit(label, t1);
    assert(t2[0] == ':');
    lemma_parse_dec(b.len(), t2);
    lemma_parse_lit(seq![':'], t3);
    lemma_hex_chars_len(b);
    assert(t3.len() == 2 * b.len() + 1 + rest.len());
    assert(t3[2 * b.len() as int] == '\n');
    assert(t3.take(2 * b.len() as int) =~= hex_chars(b));
    lemma_hex_decode_encode(b);
    assert(t3.skip(2 * b.len() as int + 1) =~= rest);
}

/// Decoding an encoded number line gives back its value.
proof fn lemma_parse_num_field(label: Seq<char>, n: nat, bound: nat, rest: Seq<char>)
    requires
        n <= bound,
    ensures
        parse_num_field(num_field(label, n) + rest, label, bound) == Option::Some((n, rest)),
{
    let t2 = seq!['\n'] + rest;
    let t1 = dec_chars(n) + t2;
    assert(num_field(label, n) + rest =~= label + t1);
    lemma_parse_lit(label, t1);
    assert(t2[0] == '\n');
    lemma_parse_dec(n, t2);
    assert(t2.skip(1) =~= rest);
}

/// Decoding an encoded count line gives back its value.
proof fn lemma_parse_count(label: Seq<char>, n: nat, rest: Seq<char>)
    ensures
        parse_count(num_field(label, n) + rest, label) == Option::Some((n, rest)),
{
    let t2 = seq!['\n'] + rest;
    let t1 = dec_chars(n) + t2;
    assert(num_field(label, n) + rest =~= label + t1);
    lemma_parse_lit(label, t1);
    assert(t2[0] == '\n');
    lemma_parse_dec(n, t2);
    assert(t2.skip(1) =~= rest);
}

/// Decoding an encoded record gives back the record.
proof fn lemma_parse_tile(t: TileModel, rest: Seq<char>)
    requires
        t.wf(),
    ensures
        parse_tile(tile_chars(t) + rest) == Option::Some((t, rest)),
{
    let r2 = num_field("y="@, t.y as nat) + rest;
    let r1 = num_field("x="@, t.x as nat) + r2;
    assert(tile_chars(t) + rest =~= text_field("name="@, t.name) + r1);
    lemma_parse_text_field("name="@, t.name, r1);
    lemma_parse_num_field("x="@, t.x as nat, i32::MAX as nat, r2);
    lemma_parse_num_field("y="@, t.y as nat, i32::MAX as nat, rest);
    assert(TileModel { name: t.name, x: (t.x as nat) as int, y: (t.y as nat) as int } == t);
}

/// Decoding the encoded record list, with its own count, gives back the
/// list.
proof fn lemma_parse_tiles_all(ts: Seq<TileModel>, rest: Seq<char>)
    requires
        forall|i: int| 0 <= i < ts.len() ==> (#[trigger] ts[i]).wf(),
    ensures
        parse_tiles(tiles_chars(ts) + rest, ts.len()) == Option::Some((ts, rest)),
    decreases ts.len(),
{
    if ts.len() == 0 {
        assert(tiles_chars(ts) + rest =~= rest);
        assert(Seq::<TileModel>::empty() =~= ts);
    } else {
        let tail_rest = tiles_chars(ts.drop_first()) + rest;
        assert(tiles_chars(ts) + rest =~= tile_chars(ts[0]) + tail_rest);
        lemma_parse_tile(ts[0], tail_rest);
        assert(forall|i: int|
            0 <= i < ts.drop_first().len() ==> (#[trigger] ts.drop_first()[i]).wf());
        lemma_parse_tiles_all(ts.drop_first(), rest);
        assert(seq![ts[0]] + ts.drop_first() =~= ts);
    }
}

/// Appending a byte appends its two hexadecimal characters.
proof fn lemma_hex_chars_snoc(b: Seq<u8>, x: u8)
    ensures
        hex_chars(b.push(x)) == hex_chars(b) + seq![
            hex_digit_char((x / 16) as nat),
            hex_digit_char((x % 16) as nat),
        ],
    decreases b.len(),
{
    reveal_with_fuel(hex_chars, 3);
    if b.len() == 0 {
        assert(b.push(x)[0] == x);
        assert(b.push(x).drop_first() =~= Seq::<u8>::empty());
        assert(hex_chars(b.push(x)) =~= hex_chars(b) + seq![
            hex_digit_char((x / 16) as nat),
            hex_digit_char((x % 16) as nat),
        ]);
    } else {
        assert(b.push(x)[0] == b[0]);
        assert(b.push(x).drop_first() =~= b.drop_first().push(x));
        lemma_hex_chars_snoc(b.drop_first(), x);
        assert(hex_chars(b.push(x)) =~= hex_chars(b) + seq![
            hex_digit_char((x / 16) as nat),
            hex_digit_char((x % 16) as nat),
        ]);
    }
}

/// Appending a record appends its encoded form.
proof fn lemma_tiles_chars_snoc(ts: Seq<TileModel>, t: TileModel)
    ensures
        tiles_chars(ts.push(t)) == tiles_chars(ts) + tile_chars(t),
    decreases ts.len(),
{
    reveal_with_fuel(tiles_chars, 3);
    if ts.len() == 0 {
        assert(ts.push(t)[0] == t);
        assert(ts.push(t).drop_first() =~= Seq::<TileModel>::empty());
        assert(tiles_chars(ts.push(t)) =~= tiles_chars(ts) + tile_chars(t));
    } else {
        assert(ts.push(t)[0] == ts[0]);
        assert(ts.push(t).drop_first() =~= ts.drop_first().push(t));
        lemma_tiles_chars_snoc(ts.drop_first(), t);
        assert(tiles_chars(ts.push(t)) =~= tiles_chars(ts) + tile_chars(t));
    }
}

// ---------------------------------------------------------------------
// The encoder, executable.
// ---------------------------------------------------------------------
/// Renders `v` in canonical decimal at the end of `out`.
fn append_dec(out: &mut String, v: u64)
    ensures
        final(out)@ == old(out)@ + dec_chars(v as nat),
    decreases v,
{
    if v < 10 {
        out.append(digit_str(v as u8));
    } else {
        append_dec(out, v / 10);
        out.append(digit_str((v % 10) as u8));
        proof {
            assert(out@ =~= old(out)@ + dec_chars(v as nat));
        }
    }
}

/// Appends `label`, the length-prefixed text `v` and the closing
/// newline.
fn append_text_field(out: &mut String, label: &str, v: &str)
    ensures
        final(out)@ == old(out)@ + text_field(label@, v@),
{
    out.append(label);
    let n = v.unicode_len();
    append_dec(out, n as u64);
    out.append(":");
    out.append(v);
    out.append("\n");
    proof {
        reveal_strlit(":");
        reveal_strlit("\n");
        assert(":"@ =~= seq![':']);
        assert("\n"@ =~= seq!['\n']);
        assert(out@ =~= old(out)@ + text_field(label@, v@));
    }
}

/// The hexadecimal digit of a value below sixteen, as a one-character
/// string.
fn hex_digit_str(d: u8) -> (r: &'static str)
    requires
        d < 16,
    ensures
        r@ == seq![hex_digit_char(d as nat)],
{
    if d < 10 {
        digit_str(d)
    } else {
        let r: &'static str = match d {
            10u8 => "a",
            11u8 => "b",
            12u8 => "c",
            13u8 => "d",
            14u8 => "e",
            _ => "f",
        };
        proof {
            reveal_strlit("a");
            reveal_strlit("b");
            reveal_strlit("c");
            reveal_strlit("d");
            reveal_strlit("e");
            reveal_strlit("f");
            assert(r@ =~= seq![hex_digit_char(d as nat)]);
        }
        r
    }
}

/// Appends `label`, the length-prefixed hexadecimal bytes and the
/// closing newline.
fn append_bytes_field(out: &mut String, label: &str, b: &Vec<u8>)
    ensures
        final(out)@ == old(out)@ + bytes_field(label@, b@),
{
    out.append(label);
    append_dec(out, b.len() as u64);
    out.append(":");
    proof {
        reveal_strlit(":");
        assert(":"@ =~= seq![':']);
        assert(b@.take(0) =~= Seq::<u8>::empty());
    }
    let ghost head: Seq<char> = out@;
    let mut j: usize = 0;
    while j < b.len()
        invariant
            j <= b.len(),
            out@ == head + hex_chars(b@.take(j as int)),
        decreases b.len() - j,
    {
        let byte = b[j];
        proof {
            vstd::arithmetic::div_mod::lemma_multiply_divide_lt(byte as int, 16, 16);
        }
        out.append(hex_digit_str(byte / 16));
        out.append(hex_digit_str(byte % 16));
        proof {
            lemma_hex_chars_snoc(b@.take(j as int), b@[j as int]);
            assert(b@.take(j as int).push(b@[j as int]) =~= b@.take(j as int + 1));
            assert(out@ =~= head + hex_chars(b@.take(j as int + 1)));
        }
        j = j + 1;
    }
    out.append("\n");
    proof {
        reveal_strlit("\n");
        assert("\n"@ =~= seq!['\n']);
        assert(b@.take(b@.len() as int) =~= b@);
        assert(out@ =~= old(out)@ + bytes_field(label@, b@));
    }
}

/// Appends `label`, the decimal value and the closing newline.
fn append_num_field(out: &mut String, label: &str, v: u64)
    ensures
        final(out)@ == old(out)@ + num_field(label@, v as nat),
{
    out.append(label);
    append_dec(out, v);
    out.append("\n");
    proof {
        reveal_strlit("\n");
        assert("\n"@ =~= seq!['\n']);
        assert(out@ =~= old(out)@ + num_field(label@, v as nat));
    }
}

impl TilesetInformation {
    /// Encodes the whole session into its deterministic text form.
    /// Encoding happens entirely in memory: nothing is written anywhere
    /// until the caller decides what to do with the returned text.
    pub fn serialize(&self) -> (r: String)
        requires
            self.wf(),
        ensures
            r@ == spec_serialize(self@),
    {
        let mut out = String::new();
        append_text_field(&mut out, "rows=", self.rows.as_str());
        append_text_field(&mut out, "columns=", self.columns.as_str());
        append_text_field(&mut out, "width_px=", self.width_px.as_str());
        append_text_field(&mut out, "height_px=", self.height_px.as_str());
        append_text_field(&mut out, "image_path=", self.image_path.as_str());
        append_bytes_field(&mut out, "image_raw=", &self.image_raw);
        append_num_field(&mut out, "tiles=", self.tiles.len() as u64);
        proof {
            assert(self@.tiles.take(0) =~= Seq::<TileModel>::empty());
        }
        let ghost head: Seq<char> = out@;
        let mut j: usize = 0;
        while j < self.tiles.len()
            invariant
                j <= self.tiles.len(),
                self.wf(),
                out@ == head + tiles_chars(self@.tiles.take(j as int)),
            decreases self.tiles.len() - j,
        {
            let t = &self.tiles[j];
            proof {
                assert(self@.tiles[j as int].wf());
                assert(self@.tiles[j as int] == self.tiles@[j as int]@);
            }
            append_text_field(&mut out, "name=", t.name.as_str());
            append_num_field(&mut out, "x=", t.x as u64);
            append_num_field(&mut out, "y=", t.y as u64);
            proof {
                lemma_tiles_chars_snoc(self@.tiles.take(j as int), self@.tiles[j as int]);
                assert(self@.tiles.take(j as int).push(self@.tiles[j as int]) =~= self@.tiles.take(
                    j as int + 1,
                ));
                assert(out@ =~= head + tiles_chars(self@.tiles.take(j as int + 1)));
            }
            j = j + 1;
        }
        proof {
            assert(self@.tiles.take(self.tiles@.len() as int) =~= self@.tiles);
            assert(out@ =~= spec_serialize(self@));
        }
        out
    }
}

/// Law: decoding the encoding of any valid session state yields exactly
/// that state, whatever the field texts, the record list (duplicates
/// included) and the image contents are.
pub proof fn lemma_serialize_deserialize(m: StoreModel)
    requires
        m.wf(),
    ensures
        spec_deserialize(spec_serialize(m)) == Option::Some(m),
{
    let r7 = Seq::<char>::empty();
    let r6 = tiles_chars(m.tiles) + r7;
    let r5 = num_field("tiles="@, m.tiles.len()) + r6;
    let r4 = bytes_field("image_raw="@, m.image_raw) + r5;
    let r3 = text_field("image_path="@, m.image_path) + r4;
    let r2 = text_field("height_px="@, m.height_px) + r3;
    let r1 = text_field("width_px="@, m.width_px) + r2;
    let r0 = text_field("columns="@, m.columns) + r1;
    assert(spec_serialize(m) =~= text_field("rows="@, m.rows) + r0);
    lemma_parse_text_field("rows="@, m.rows, r0);
    lemma_parse_text_field("columns="@, m.columns, r1);
    lemma_parse_text_field("width_px="@, m.width_px, r2);
    lemma_parse_text_field("height_px="@, m.height_px, r3);
    lemma_parse_text_field("image_path="@, m.image_path, r4);
    lemma_parse_bytes_field("image_raw="@, m.image_raw, r5);
    lemma_parse_count("tiles="@, m.tiles.len(), r6);
    lemma_parse_tiles_all(m.tiles, r7);
    assert(StoreModel {
        rows: m.rows,
        columns: m.columns,
        width_px: m.width_px,
        height_px: m.height_px,
        tiles: m.tiles,
        image_path: m.image_path,
        image_raw: m.image_raw,
    } == m);
}

// ---------------------------------------------------------------------
// The decoder, executable.
// ---------------------------------------------------------------------
/// A text field leaves a strictly shorter remainder.
proof fn lemma_parse_text_field_consumes(s: Seq<char>, label: Seq<char>)
    ensures
        parse_text_field(s, label) matches Option::Some(pr) ==> pr.1.len() < s.len(),
{
    if parse_text_field(s, label) is Some {
        let s1 = parse_lit(s, label).unwrap();
        lemma_parse_nat_rec_bounds(s1, 0);
    }
}

/// A number line leaves a strictly shorter remainder.
proof fn lemma_parse_num_field_consumes(s: Seq<char>, label: Seq<char>, bound: nat)
    ensures
        parse_num_field(s, label, bound) matches Option::Some(pr) ==> pr.1.len() < s.len(),
{
    if parse_num_field(s, label, bound) is Some {
        let s1 = parse_lit(s, label).unwrap();
        lemma_parse_nat_rec_bounds(s1, 0);
    }
}

/// A record leaves a strictly shorter remainder.
proof fn lemma_parse_tile_consumes(s: Seq<char>)
    ensures
        parse_tile(s) matches Option::Some(pr) ==> pr.1.len() < s.len(),
{
    if parse_tile(s) is Some {
        lemma_parse_text_field_consumes(s, "name="@);
        let (name, s1) = parse_text_field(s, "name="@).unwrap();
        lemma_parse_num_field_consumes(s1, "x="@, i32::MAX as nat);
        let (x, s2) = parse_num_field(s1, "x="@, i32::MAX as nat).unwrap();
        lemma_parse_num_field_consumes(s2, "y="@, i32::MAX as nat);
    }
}

/// More records than remaining characters can never be read.
proof fn lemma_parse_tiles_too_many(s: Seq<char>, n: nat)
    requires
        n > s.len(),
    ensures
        parse_tiles(s, n) is None,
    decreases n,
{
    lemma_parse_tile_consumes(s);
    if parse_tile(s) is Some {
        let pr = parse_tile(s).unwrap();
        lemma_parse_tiles_too_many(pr.1, (n - 1) as nat);
    }
}

/// Reads the exact characters of `lit` at `pos`.
fn expect_lit(s: &str, pos: usize, lit: &str) -> (r: Option<usize>)
    requires
        pos <= s@.len(),
    ensures
        match r {
            Option::Some(p2) => pos <= p2 <= s@.len() && parse_lit(s@.skip(pos as int), lit@)
                == Option::Some(s@.skip(p2 as int)),
            Option::None => parse_lit(s@.skip(pos as int), lit@) is None,
        },
{
    let len = s.unicode_len();
    let llen = lit.unicode_len();
    if llen > len - pos {
        return Option::None;
    }
    let mut j: usize = 0;
    while j < llen
        invariant
            0 <= j <= llen,
            pos + llen <= len,
            len == s@.len(),
            llen == lit@.len(),
            forall|k: int| 0 <= k < j ==> s@[pos + k] == lit@[k],
        decreases llen - j,
    {
        let c1 = s.get_char(pos + j);
        let c2 = lit.get_char(j);
        if c1 != c2 {
            proof {
                let suf = s@.skip(pos as int);
                assert(suf.take(lit@.len() as int)[j as int] == s@[pos + j]);
                if suf.take(lit@.len() as int) == lit@ {
                    assert(suf.take(lit@.len() as int)[j as int] == lit@[j as int]);
                }
            }
            return Option::None;
        }
        j = j + 1;
    }
    proof {
        let suf = s@.skip(pos as int);
        assert(suf.take(lit@.len() as int) =~= lit@);
        assert(suf.skip(lit@.len() as int) =~= s@.skip(pos as int + llen as int));
    }
    Option::Some(pos + llen)
}

/// Reads a decimal number at `pos`, refusing values above `bound`.
fn parse_number_exec(s: &str, pos: usize, bound: u64) -> (r: Option<(u64, usize)>)
    requires
        pos <= s@.len(),
    ensures
        match r {
            Option::Some(v) => pos <= v.1 <= s@.len() && v.0 <= bound && parse_nat(
                s@.skip(pos as int),
            ) == Option::Some((v.0 as nat, s@.skip(v.1 as int))),
            Option::None => parse_nat(s@.skip(pos as int)) is None || (parse_nat(
                s@.skip(pos as int),
            ) matches Option::Some(pr) && pr.0 > bound),
        },
{
    let len = s.unicode_len();
    if pos == len {
        proof {
            assert(s@.skip(pos as int) =~= Seq::<char>::empty());
        }
        return Option::None;
    }
    let c0 = s.get_char(pos);
    proof {
        assert(s@.skip(pos as int)[0] == s@[pos as int]);
    }
    if digit_of_char(c0).is_none() {
        return Option::None;
    }
    let mut acc: u64 = 0;
    let mut i: usize = pos;
    while i < len
        invariant
            pos <= i <= len,
            len == s@.len(),
            acc <= bound,
            pos < s@.len() && is_dec_digit(s@[pos as int]),
            parse_nat_rec(s@.skip(pos as int), 0) == parse_nat_rec(s@.skip(i as int), acc as nat),
        decreases len - i,
    {
        let c = s.get_char(i);
        proof {
            assert(s@.skip(i as int)[0] == s@[i as int]);
        }
        match digit_of_char(c) {
            Option::None => {
                return Option::Some((acc, i));
            },
            Option::Some(d) => {
                let acc2: u128 = acc as u128 * 10 + d as u128;
                proof {
                    assert(s@.skip(i as int).drop_first() =~= s@.skip(i as int + 1));
                    assert(parse_nat_rec(s@.skip(i as int), acc as nat) == parse_nat_rec(
                        s@.skip(i as int + 1),
                        acc as nat * 10 + digit_val(s@[i as int]),
                    ));
                }
                if acc2 > bound as u128 {
                    proof {
                        lemma_parse_nat_rec_bounds(
                            s@.skip(i as int + 1),
                            acc as nat * 10 + digit_val(s@[i as int]),
                        );
                    }
                    return Option::None;
                }
                acc = acc2 as u64;
                i = i + 1;
            },
        }
    }
    proof {
        assert(s@.skip(len as int) =~= Seq::<char>::empty());
    }
    Option::Some((acc, len))
}

/// Reads one length-prefixed text field at `pos`.
fn parse_text_field_exec(s: &str, pos: usize, label: &str) -> (r: Option<(String, usize)>)
    requires
        pos <= s@.len(),
    ensures
        match r {
            Option::Some(v) => pos <= v.1 <= s@.len() && parse_text_field(
                s@.skip(pos as int),
                label@,
            ) == Option::Some((v.0@, s@.skip(v.1 as int))),
            Option::None => parse_text_field(s@.skip(pos as int), label@) is None,
        },
{
    proof {
        reveal_strlit(":");
        assert(":"@ =~= seq![':']);
    }
    let len = s.unicode_len();
    let p1 = match expect_lit(s, pos, label) {
        Option::Some(p) => p,
        Option::None => {
            return Option::None;
        },
    };
    let (n64, p2) = match parse_number_exec(s, p1, (len - p1) as u64) {
        Option::Some(v) => v,
        Option::None => {
            proof {
                let suf1 = s@.skip(p1 as int);
                if parse_nat(suf1) is Some {
                    let pr = parse_nat(suf1).unwrap();
                    lemma_parse_nat_rec_bounds(suf1, 0);
                    assert(pr == parse_nat_rec(suf1, 0));
                    assert(pr.1.len() <= suf1.len());
                }
            }
            return Option::None;
        },
    };
    let p3 = match expect_lit(s, p2, ":") {
        Option::Some(p) => p,
        Option::None => {
            return Option::None;
        },
    };
    let rem = len - p3;
    if n64 >= rem as u64 {
        return Option::None;
    }
    let n = n64 as usize;
    let nl = s.get_char(p3 + n);
    proof {
        assert(s@.skip(p3 as int)[n as int] == s@[p3 as int + n as int]);
    }
    if nl != '\n' {
        return Option::None;
    }
    let content = s.substring_char(p3, p3 + n);
    let text = String::from_str(content);
    proof {
        assert(s@.skip(p3 as int).take(n as int) =~= s@.subrange(p3 as int, p3 as int + n as int));
        assert(s@.skip(p3 as int).skip(n as int + 1) =~= s@.skip(p3 as int + n as int + 1));
    }
    Option::Some((text, p3 + n + 1))
}

/// Executable hexadecimal digit test and conversion.
fn hex_digit_of_char(c: char) -> (r: Option<u8>)
    ensures
        match r {
            Option::Some(d) => is_hex_digit(c) && d as nat == hex_val(c) && d < 16,
            Option::None => !is_hex_digit(c),
        },
{
    match digit_of_char(c) {
        Option::Some(d) => Option::Some(d),
        Option::None => match c {
            'a' => Option::Some(10u8),
            'b' => Option::Some(11u8),
            'c' => Option::Some(12u8),
            'd' => Option::Some(13u8),
            'e' => Option::Some(14u8),
            'f' => Option::Some(15u8),
            _ => Option::None,
        },
    }
}

/// Reads one length-prefixed hexadecimal byte field at `pos`.
#[verifier::loop_isolation(false)]
fn parse_bytes_field_exec(s: &str, pos: usize, label: &str) -> (r: Option<(Vec<u8>, usize)>)
    requires
        pos <= s@.len(),
    ensures
        match r {
            Option::Some(v) => pos <= v.1 <= s@.len() && parse_bytes_field(
                s@.skip(pos as int),
                label@,
            ) == Option::Some((v.0@, s@.skip(v.1 as int))),
            Option::None => parse_bytes_field(s@.skip(pos as int), label@) is None,
        },
{
    proof {
        reveal_strlit(":");
        assert(":"@ =~= seq![':']);
    }
    let len = s.unicode_len();
    let p1 = match expect_lit(s, pos, label) {
        Option::Some(p) => p,
        Option::None => {
            return Option::None;
        },
    };
    let (n64, p2) = match parse_number_exec(s, p1, (len - p1) as u64) {
        Option::Some(v) => v,
        Option::None => {
            proof {
                let suf1 = s@.skip(p1 as int);
                if parse_nat(suf1) is Some {
                    let pr = parse_nat(suf1).unwrap();
                    lemma_parse_nat_rec_bounds(suf1, 0);
                    assert(pr == parse_nat_rec(suf1, 0));
                    assert(pr.1.len() <= suf1.len());
                }
            }
            return Option::None;
        },
    };
    let p3 = match expect_lit(s, p2, ":") {
        Option::Some(p) => p,
        Option::None => {
            return Option::None;
        },
    };
    let rem = len - p3;
    proof {
        if rem > 0 {
            vstd::arithmetic::div_mod::lemma_fundamental_div_mod(rem as int - 1, 2);
            vstd::arithmetic::div_mod::lemma_mod_bound(rem as int - 1, 2);
        }
    }
    if rem == 0 || n64 > ((rem - 1) / 2) as u64 {
        return Option::None;
    }
    let n = n64 as usize;
    let nl = s.get_char(p3 + 2 * n);
    proof {
        assert(s@.skip(p3 as int)[2 * n as int] == s@[p3 as int + 2 * n as int]);
    }
    if nl != '\n' {
        return Option::None;
    }
    let ghost chunk: Seq<char> = s@.skip(p3 as int).take(2 * n as int);
    proof {
        assert(chunk.skip(0) =~= chunk);
        assert(Seq::<u8>::empty() + hex_decode(chunk).unwrap_or(Seq::<u8>::empty())
            =~= hex_decode(chunk).unwrap_or(Seq::<u8>::empty()));
    }
    let mut bytes: Vec<u8> = Vec::new();
    let mut j: usize = 0;
    while j < n
        invariant
            0 <= j <= n,
            len == s@.len(),
            p3 + 2 * n < len,
            chunk == s@.skip(p3 as int).take(2 * n as int),
            bytes@.len() == j,
            match hex_decode(chunk.skip(2 * j as int)) {
                Option::Some(r2) => hex_decode(chunk) == Option::Some(bytes@ + r2),
                Option::None => hex_decode(chunk) is None,
            },
        decreases n - j,
    {
        let c1 = s.get_char(p3 + 2 * j);
        let c2 = s.get_char(p3 + 2 * j + 1);
        proof {
            assert(chunk[2 * j as int] == s@[p3 as int + 2 * j as int]);
            assert(chunk[2 * j as int + 1] == s@[p3 as int + 2 * j as int + 1]);
            assert(chunk.skip(2 * j as int)[0] == chunk[2 * j as int]);
            assert(chunk.skip(2 * j as int)[1] == chunk[2 * j as int + 1]);
            assert(chunk.skip(2 * j as int).len() == 2 * n as int - 2 * j as int);
        }
        let d1 = match hex_digit_of_char(c1) {
            Option::Some(d) => d,
            Option::None => {
                proof {
                    assert(hex_decode(chunk.skip(2 * j as int)) is None);
                    assert(hex_decode(chunk) is None);
                }
                return Option::None;
            },
        };
        let d2 = match hex_digit_of_char(c2) {
            Option::Some(d) => d,
            Option::None => {
                proof {
                    assert(hex_decode(chunk.skip(2 * j as int)) is None);
                    assert(hex_decode(chunk) is None);
                }
                return Option::None;
            },
        };
        let byte: u8 = d1 * 16 + d2;
        proof {
            assert(hex_pair_val(c1, c2) == byte);
            assert(chunk.skip(2 * j as int).skip(2) =~= chunk.skip(2 * j as int + 2));
            if hex_decode(chunk.skip(2 * j as int + 2)) is Some {
                let r2 = hex_decode(chunk.skip(2 * j as int + 2)).unwrap();
                assert(hex_decode(chunk.skip(2 * j as int)) == Option::Some(seq![byte] + r2));
                assert(bytes@ + (seq![byte] + r2) =~= bytes@.push(byte) + r2);
            }
        }
        bytes.push(byte);
        j = j + 1;
    }
    proof {
        assert(chunk.skip(2 * n as int) =~= Seq::<char>::empty());
        assert(bytes@ + Seq::<u8>::empty() =~= bytes@);
        assert(s@.skip(p3 as int).skip(2 * n as int + 1) =~= s@.skip(p3 as int + 2 * n as int + 1));
    }
    Option::Some((bytes, p3 + 2 * n + 1))
}

/// Reads one bounded number line at `pos`.
fn parse_num_field_exec(s: &str, pos: usize, label: &str, bound: u64) -> (r: Option<(u64, usize)>)
    requires
        pos <= s@.len(),
    ensures
        match r {
            Option::Some(v) => pos <= v.1 <= s@.len() && v.0 <= bound && parse_num_field(
                s@.skip(pos as int),
                label@,
                bound as nat,
            ) == Option::Some((v.0 as nat, s@.skip(v.1 as int))),
            Option::None => parse_num_field(s@.skip(pos as int), label@, bound as nat) is None,
        },
{
    let len = s.unicode_len();
    let p1 = match expect_lit(s, pos, label) {
        Option::Some(p) => p,
        Option::None => {
            return Option::None;
        },
    };
    let (n64, p2) = match parse_number_exec(s, p1, bound) {
        Option::Some(v) => v,
        Option::None => {
            return Option::None;
        },
    };
    if p2 == len {
        proof {
            assert(s@.skip(p2 as int) =~= Seq::<char>::empty());
        }
        return Option::None;
    }
    let nl = s.get_char(p2);
    proof {
        assert(s@.skip(p2 as int)[0] == s@[p2 as int]);
    }
    if nl != '\n' {
        return Option::None;
    }
    proof {
        assert(s@.skip(p2 as int).skip(1) =~= s@.skip(p2 as int + 1));
    }
    Option::Some((n64, p2 + 1))
}

/// Reads the record count line at `pos`.  A count that cannot possibly
/// be met by the remaining text is reported as too large.
fn parse_count_exec(s: &str, pos: usize, label: &str) -> (r: Option<(u64, usize)>)
    requires
        pos <= s@.len(),
    ensures
        match r {
            Option::Some(v) => pos <= v.1 <= s@.len() && parse_count(s@.skip(pos as int), label@)
                == Option::Some((v.0 as nat, s@.skip(v.1 as int))),
            Option::None => parse_count(s@.skip(pos as int), label@) is None || (parse_count(
                s@.skip(pos as int),
                label@,
            ) matches Option::Some(pr) && pr.0 > pr.1.len()),
        },
{
    let len = s.unicode_len();
    let p1 = match expect_lit(s, pos, label) {
        Option::Some(p) => p,
        Option::None => {
            return Option::None;
        },
    };
    let (n64, p2) = match parse_number_exec(s, p1, (len - p1) as u64) {
        Option::Some(v) => v,
        Option::None => {
            proof {
                let suf1 = s@.skip(p1 as int);
                if parse_nat(suf1) is Some {
                    let pr = parse_nat(suf1).unwrap();
                    lemma_parse_nat_rec_bounds(suf1, 0);
                    assert(pr == parse_nat_rec(suf1, 0));
                    assert(pr.1.len() <= suf1.len());
                }
            }
            return Option::None;
        },
    };
    if p2 == len {
        proof {
            assert(s@.skip(p2 as int) =~= Seq::<char>::empty());
        }
        return Option::None;
    }
    let nl = s.get_char(p2);
    proof {
        assert(s@.skip(p2 as int)[0] == s@[p2 as int]);
    }
    if nl != '\n' {
        return Option::None;
    }
    proof {
        assert(s@.skip(p2 as int).skip(1) =~= s@.skip(p2 as int + 1));
    }
    Option::Some((n64, p2 + 1))
}

/// Reads one record at `pos`.
fn parse_tile_exec(s: &str, pos: usize) -> (r: Option<(TileMetadata, usize)>)
    requires
        pos <= s@.len(),
    ensures
        match r {
            Option::Some(v) => pos <= v.1 <= s@.len() && v.0.wf() && parse_tile(s@.skip(pos as int))
                == Option::Some((v.0@, s@.skip(v.1 as int))),
            Option::None => parse_tile(s@.skip(pos as int)) is None,
        },
{
    let (name, p1) = match parse_text_field_exec(s, pos, "name=") {
        Option::Some(v) => v,
        Option::None => {
            return Option::None;
        },
    };
    let (x64, p2) = match parse_num_field_exec(s, p1, "x=", 0x7fff_ffff) {
        Option::Some(v) => v,
        Option::None => {
            return Option::None;
        },
    };
    let (y64, p3) = match parse_num_field_exec(s, p2, "y=", 0x7fff_ffff) {
        Option::Some(v) => v,
        Option::None => {
            return Option::None;
        },
    };
    Option::Some((TileMetadata { name, x: x64 as i32, y: y64 as i32 }, p3))
}

/// Decodes an encoded session.  Succeeds exactly on the output of
/// [`TilesetInformation::serialize`], with nothing before or after it,
/// and then returns the encoded session itself.
#[verifier::loop_isolation(false)]
pub fn deserialize(s: &str) -> (r: Option<TilesetInformation>)
    ensures
        match r {
            Option::Some(info) => spec_deserialize(s@) == Option::Some(info@) && info.wf(),
            Option::None => spec_deserialize(s@) is None,
        },
{
    let len = s.unicode_len();
    proof {
        assert(s@.skip(0) =~= s@);
    }
    let (rows, p1) = match parse_text_field_exec(s, 0, "rows=") {
        Option::Some(v) => v,
        Option::None => {
            return Option::None;
        },
    };
    let (columns, p2) = match parse_text_field_exec(s, p1, "columns=") {
        Option::Some(v) => v,
        Option::None => {
            return Option::None;
        },
    };
    let (width_px, p3) = match parse_text_field_exec(s, p2, "width_px=") {
        Option::Some(v) => v,
        Option::None => {
            return Option::None;
        },
    };
    let (height_px, p4) = match parse_text_field_exec(s, p3, "height_px=") {
        Option::Some(v) => v,
        Option::None => {
            return Option::None;
        },
    };
    let (image_path, p5) = match parse_text_field_exec(s, p4, "image_path=") {
        Option::Some(v) => v,
        Option::None => {
            return Option::None;
        },
    };
    let (image_raw, p6) = match parse_bytes_field_exec(s, p5, "image_raw=") {
        Option::Some(v) => v,
        Option::None => {
            return Option::None;
        },
    };
    let (count, p7) = match parse_count_exec(s, p6, "tiles=") {
        Option::Some(v) => v,
        Option::None => {
            proof {
                if parse_count(s@.skip(p6 as int), "tiles="@) is Some {
                    let pr = parse_count(s@.skip(p6 as int), "tiles="@).unwrap();
                    lemma_parse_tiles_too_many(pr.1, pr.0);
                }
            }
            return Option::None;
        },
    };
    let mut tiles: Vec<TileMetadata> = Vec::new();
    let mut pos: usize = p7;
    let mut j: u64 = 0;
    proof {
        assert(tiles@.map_values(|t: TileMetadata| t@) =~= Seq::<TileModel>::empty());
    }
    while j < count
        invariant
            0 <= j <= count,
            len == s@.len(),
            pos <= s@.len(),
            p7 <= s@.len(),
            tiles@.len() == j,
            forall|k: int| 0 <= k < tiles@.len() ==> (#[trigger] tiles@[k]).wf(),
            match parse_tiles(s@.skip(pos as int), (count - j) as nat) {
                Option::Some(pr) => parse_tiles(s@.skip(p7 as int), count as nat)
                    == Option::Some((tiles@.map_values(|t: TileMetadata| t@) + pr.0, pr.1)),
                Option::None => parse_tiles(s@.skip(p7 as int), count as nat) is None,
            },
        decreases count - j,
    {
        match parse_tile_exec(s, pos) {
            Option::None => {
                proof {
                    assert((count - j) as nat != 0);
                    assert(parse_tiles(s@.skip(pos as int), (count - j) as nat) is None);
                }
                return Option::None;
            },
            Option::Some((t, pnext)) => {
                proof {
                    if parse_tiles(s@.skip(pnext as int), (count - j - 1) as nat) is Some {
                        let pr2 = parse_tiles(s@.skip(pnext as int), (count - j - 1) as nat).unwrap();
                        assert(parse_tiles(s@.skip(pos as int), (count - j) as nat)
                            == Option::Some((seq![t@] + pr2.0, pr2.1)));
                        assert(tiles@.map_values(|t2: TileMetadata| t2@) + (seq![t@] + pr2.0)
                            =~= tiles@.push(t).map_values(|t2: TileMetadata| t2@) + pr2.0);
                    } else {
                        assert(parse_tiles(s@.skip(pos as int), (count - j) as nat) is None);
                    }
                }
                tiles.push(t);
                pos = pnext;
                j = j + 1;
            },
        }
    }
    if pos != len {
        proof {
            assert(parse_tiles(s@.skip(pos as int), 0) == Option::Some(
                (Seq::<TileModel>::empty(), s@.skip(pos as int)),
            ));
            assert(s@.skip(pos as int).len() > 0);
        }
        return Option::None;
    }
    let info = TilesetInformation {
        rows,
        columns,
        width_px,
        height_px,
        tiles,
        image_path,
        image_raw,
    };
    proof {
        assert(parse_tiles(s@.skip(pos as int), 0) == Option::Some(
            (Seq::<TileModel>::empty(), s@.skip(pos as int)),
        ));
        assert(tiles@.map_values(|t: TileMetadata| t@) + Seq::<TileModel>::empty()
            =~= tiles@.map_values(|t: TileMetadata| t@));
        assert(s@.skip(len as int) =~= Seq::<char>::empty());
        assert(info@.tiles =~= tiles@.map_values(|t: TileMetadata| t@));
        assert(spec_deserialize(s@) == Option::Some(info@));
    }
    Option::Some(info)
}

} // verus!
