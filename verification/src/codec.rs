//! The record codec.
//!
//! Operations are serialized as self-delimited JSON values, one object
//! per record, with no separators between records:
//!
//! - `{"Set":{"key":"...","value":"..."}}`
//! - `{"Rm":{"key":"..."}}`
//! - `{"Get":{"key":"..."}}`
//!
//! String contents are escaped byte for byte: `"` and `\` with a
//! backslash, control bytes as `\u00xx` with lowercase hex digits, and
//! every other byte stands for itself.  The decoder accepts exactly the
//! bytes the encoder produces, so each record has one canonical form
//! and the byte length of a record can be recovered from the serialized
//! form alone.

use vstd::prelude::*;

use crate::error::KvsError;

verus! {

/// A command, as written to the log and as sent over the wire.
#[derive(Debug, Clone, PartialEq, Eq)]
pub enum Command {
    /// Bind `key` to `value`.
    SetCmd { key: String, value: String },
    /// Remove `key`.
    Rm { key: String },
    /// Look `key` up; never written to the log by the store itself.
    Get { key: String },
}

/// The mathematical model of a record: the raw byte strings a record
/// carries, before any character decoding.
pub enum Rec {
    SetRec { key: Seq<u8>, value: Seq<u8> },
    Rm { key: Seq<u8> },
    Get { key: Seq<u8> },
}

impl View for Command {
    type V = Rec;

    open spec fn view(&self) -> Rec {
        match self {
            Command::SetCmd { key, value } => Rec::SetRec {
                key: vstd::utf8::encode_utf8(key@),
                value: vstd::utf8::encode_utf8(value@),
            },
            Command::Rm { key } => Rec::Rm { key: vstd::utf8::encode_utf8(key@) },
            Command::Get { key } => Rec::Get { key: vstd::utf8::encode_utf8(key@) },
        }
    }
}

impl Command {
    /// The `Set` command for the given pair.
    pub fn set(key: String, value: String) -> (r: Command)
        ensures
            r == (Command::SetCmd { key, value }),
    {
        Command::SetCmd { key, value }
    }

    /// The `Rm` command for the given key.
    pub fn remove(key: String) -> (r: Command)
        ensures
            r == (Command::Rm { key }),
    {
        Command::Rm { key }
    }
}

/// The lowercase hex digit for a nibble.
pub open spec fn hex_digit(n: u8) -> u8
    recommends
        n < 16,
{
    if n < 10 {
        (0x30 + n) as u8
    } else {
        (0x57 + n) as u8
    }
}

/// The escaped form of one byte of string content.
pub open spec fn esc_byte(b: u8) -> Seq<u8> {
    if b == 0x22 {
        seq![0x5cu8, 0x22u8]
    } else if b == 0x5c {
        seq![0x5cu8, 0x5cu8]
    } else if b < 0x20 {
        seq![0x5cu8, 0x75u8, 0x30u8, 0x30u8, hex_digit(b / 16), hex_digit(b % 16)]
    } else {
        seq![b]
    }
}

/// The escaped form of a byte string.
pub open spec fn esc(s: Seq<u8>) -> Seq<u8>
    decreases s.len(),
{
    if s.len() == 0 {
        Seq::empty()
    } else {
        esc_byte(s[0]) + esc(s.drop_first())
    }
}

/// The bytes of `{"Set":{"key":"`.
pub open spec fn set_open() -> Seq<u8> {
    seq![
        0x7bu8, 0x22u8, 0x53u8, 0x65u8, 0x74u8, 0x22u8, 0x3au8, 0x7bu8, 0x22u8, 0x6bu8, 0x65u8,
        0x79u8, 0x22u8, 0x3au8, 0x22u8,
    ]
}

/// The bytes of `{"Rm":{"key":"`.
pub open spec fn rm_open() -> Seq<u8> {
    seq![
        0x7bu8, 0x22u8, 0x52u8, 0x6du8, 0x22u8, 0x3au8, 0x7bu8, 0x22u8, 0x6bu8, 0x65u8, 0x79u8,
        0x22u8, 0x3au8, 0x22u8,
    ]
}

/// The bytes of `{"Get":{"key":"`.
pub open spec fn get_open() -> Seq<u8> {
    seq![
        0x7bu8, 0x22u8, 0x47u8, 0x65u8, 0x74u8, 0x22u8, 0x3au8, 0x7bu8, 0x22u8, 0x6bu8, 0x65u8,
        0x79u8, 0x22u8, 0x3au8, 0x22u8,
    ]
}


/// The bytes of `","value":"`, between the key and the value.
pub open spec fn val_mid() -> Seq<u8> {
    seq![
        0x2cu8, 0x22u8, 0x76u8, 0x61u8, 0x6cu8, 0x75u8, 0x65u8, 0x22u8, 0x3au8, 0x22u8,
    ]
}

/// The closing quote of a string.
pub open spec fn str_end() -> Seq<u8> {
    seq![0x22u8]
}

/// The bytes of `}}`, closing a record.
pub open spec fn rec_close() -> Seq<u8> {
    seq![0x7du8, 0x7du8]
}

/// True when both byte strings a record carries are valid UTF-8, as
/// the strings of a JSON value are.
pub open spec fn rec_utf8(r: Rec) -> bool {
    match r {
        Rec::SetRec { key, value } => vstd::utf8::valid_utf8(key) && vstd::utf8::valid_utf8(value),
        Rec::Rm { key } => vstd::utf8::valid_utf8(key),
        Rec::Get { key } => vstd::utf8::valid_utf8(key),
    }
}

/// The canonical encoding of a record.
pub open spec fn enc_rec(r: Rec) -> Seq<u8> {
    match r {
        Rec::SetRec { key, value } => set_open() + esc(key) + str_end() + val_mid() + esc(value)
            + str_end() + rec_close(),
        Rec::Rm { key } => rm_open() + esc(key) + str_end() + rec_close(),
        Rec::Get { key } => get_open() + esc(key) + str_end() + rec_close(),
    }
}

/// True when `pat` occurs in `s` at position `i`.
pub open spec fn starts_at(s: Seq<u8>, i: int, pat: Seq<u8>) -> bool {
    0 <= i && i + pat.len() <= s.len() && s.subrange(i, i + pat.len()) == pat
}

/// True for a lowercase hex digit byte.
pub open spec fn is_hex_lower(b: u8) -> bool {
    (0x30 <= b && b <= 0x39) || (0x61 <= b && b <= 0x66)
}

/// The value of a lowercase hex digit byte.
pub open spec fn hex_val(b: u8) -> u8
    recommends
        is_hex_lower(b),
{
    if b <= 0x39 {
        (b - 0x30) as u8
    } else {
        (b - 0x57) as u8
    }
}

/// Decodes escaped string content starting at `i`, up to and including
/// an unescaped closing quote.  Returns the content bytes and the
/// position just after the quote, or `None` for input the encoder
/// cannot have produced.
pub open spec fn dec_str(s: Seq<u8>, i: int) -> Option<(Seq<u8>, int)>
    decreases s.len() - i when 0 <= i <= s.len()
{
    if i >= s.len() {
        None
    } else if s[i] == 0x22 {
        Some((Seq::empty(), i + 1))
    } else if s[i] == 0x5c {
        if i + 1 >= s.len() {
            None
        } else if s[i + 1] == 0x22 || s[i + 1] == 0x5c {
            match dec_str(s, i + 2) {
                Some((rest, e)) => Some((seq![s[i + 1]] + rest, e)),
                None => None,
            }
        } else if s[i + 1] == 0x75 {
            if i + 6 > s.len() {
                None
            } else if s[i + 2] == 0x30 && s[i + 3] == 0x30 && (s[i + 4] == 0x30 || s[i + 4]
                == 0x31) && is_hex_lower(s[i + 5]) {
                match dec_str(s, i + 6) {
                    Some((rest, e)) => Some(
                        (seq![(((s[i + 4] - 0x30) * 16 + hex_val(s[i + 5])) as u8)] + rest, e),
                    ),
                    None => None,
                }
            } else {
                None
            }
        } else {
            None
        }
    } else if s[i] < 0x20 {
        None
    } else {
        match dec_str(s, i + 1) {
            Some((rest, e)) => Some((seq![s[i]] + rest, e)),
            None => None,
        }
    }
}

/// Decodes one record starting at `i`: the record and the position
/// just after it, or `None` where no canonical record starts at `i`.
pub open spec fn dec_rec(s: Seq<u8>, i: int) -> Option<(Rec, int)> {
    if starts_at(s, i, set_open()) {
        match dec_str(s, i + set_open().len()) {
            Some((key, j)) => if starts_at(s, j, val_mid()) {
                match dec_str(s, j + val_mid().len()) {
                    Some((value, e)) => if starts_at(s, e, rec_close()) && rec_utf8(
                        Rec::SetRec { key, value },
                    ) {
                        Some((Rec::SetRec { key, value }, e + rec_close().len()))
                    } else {
                        None
                    },
                    None => None,
                }
            } else {
                None
            },
            None => None,
        }
    } else if starts_at(s, i, rm_open()) {
        match dec_str(s, i + rm_open().len()) {
            Some((key, e)) => if starts_at(s, e, rec_close()) && vstd::utf8::valid_utf8(key) {
                Some((Rec::Rm { key }, e + rec_close().len()))
            } else {
                None
            },
            None => None,
        }
    } else if starts_at(s, i, get_open()) {
        match dec_str(s, i + get_open().len()) {
            Some((key, e)) => if starts_at(s, e, rec_close()) && vstd::utf8::valid_utf8(key) {
                Some((Rec::Get { key }, e + rec_close().len()))
            } else {
                None
            },
            None => None,
        }
    } else {
        None
    }
}


/// Each byte of a matched pattern can be read off the haystack.
pub proof fn lemma_starts_at_index(s: Seq<u8>, i: int, pat: Seq<u8>, k: int)
    requires
        starts_at(s, i, pat),
        0 <= k < pat.len(),
    ensures
        s[i + k] == pat[k],
{
    assert(pat[k] == s.subrange(i, i + pat.len())[k]);
}

/// A match of a concatenation splits into matches of the parts.
pub proof fn lemma_starts_at_concat(s: Seq<u8>, i: int, a: Seq<u8>, b: Seq<u8>)
    requires
        starts_at(s, i, a + b),
    ensures
        starts_at(s, i, a),
        starts_at(s, i + a.len(), b),
{
    assert(s.subrange(i, i + a.len()) =~= a) by {
        assert forall|k: int| 0 <= k < a.len() implies s.subrange(i, i + a.len())[k] == a[k] by {
            lemma_starts_at_index(s, i, a + b, k);
        }
    }
    assert(s.subrange(i + a.len(), i + a.len() + b.len()) =~= b) by {
        assert forall|k: int| 0 <= k < b.len() implies s.subrange(
            i + a.len(),
            i + a.len() + b.len(),
        )[k] == b[k] by {
            lemma_starts_at_index(s, i, a + b, a.len() + k);
        }
    }
}

/// A match within a sequence still holds after bytes are appended.
pub proof fn lemma_starts_at_append(s: Seq<u8>, t: Seq<u8>, i: int, pat: Seq<u8>)
    requires
        starts_at(s, i, pat),
    ensures
        starts_at(s + t, i, pat),
{
    assert((s + t).subrange(i, i + pat.len()) =~= s.subrange(i, i + pat.len()));
}

/// Escaping distributes over appending one byte.
pub proof fn lemma_esc_snoc(u: Seq<u8>, b: u8)
    ensures
        esc(u.push(b)) == esc(u) + esc_byte(b),
    decreases u.len(),
{
    if u.len() == 0 {
        assert(u.push(b) =~= seq![b]);
        assert(seq![b][0] == b && seq![b].drop_first() =~= Seq::<u8>::empty());
        assert(esc(seq![b]) == esc_byte(b) + esc(Seq::<u8>::empty()));
        assert(esc_byte(b) + esc(Seq::<u8>::empty()) =~= esc(u) + esc_byte(b));
    } else {
        assert(u.push(b).drop_first() =~= u.drop_first().push(b));
        assert(u.push(b)[0] == u[0]);
        lemma_esc_snoc(u.drop_first(), b);
        assert(esc_byte(u[0]) + (esc(u.drop_first()) + esc_byte(b)) =~= (esc_byte(u[0]) + esc(
            u.drop_first(),
        )) + esc_byte(b));
    }
}

/// `hex_val` undoes `hex_digit`.
pub proof fn lemma_hex_digit_val(n: u8)
    requires
        n < 16,
    ensures
        is_hex_lower(hex_digit(n)),
        hex_val(hex_digit(n)) == n,
{
}

/// Where the escape of `c` followed by a closing quote sits at `i`,
/// decoding the string starting at `i` yields exactly `c` and stops
/// just after the quote.
pub proof fn lemma_dec_str_of_esc(s: Seq<u8>, i: int, c: Seq<u8>)
    requires
        starts_at(s, i, esc(c) + str_end()),
    ensures
        dec_str(s, i) == Some((c, i + esc(c).len() + 1)),
    decreases c.len(),
{
    if c.len() == 0 {
        lemma_starts_at_index(s, i, esc(c) + str_end(), 0);
    } else {
        let b = c[0];
        let rest = c.drop_first();
        assert(esc(c) == esc_byte(b) + esc(rest));
        assert(esc(c) + str_end() =~= esc_byte(b) + (esc(rest) + str_end()));
        lemma_starts_at_concat(s, i, esc_byte(b), esc(rest) + str_end());
        let i2 = i + esc_byte(b).len();
        lemma_dec_str_of_esc(s, i2, rest);
        assert(c =~= seq![b] + rest);
        if b == 0x22 {
            lemma_starts_at_index(s, i, esc_byte(b), 0);
            lemma_starts_at_index(s, i, esc_byte(b), 1);
            assert(dec_str(s, i) == Some((seq![s[i + 1]] + rest, i + esc(c).len() + 1)));
        } else if b == 0x5c {
            lemma_starts_at_index(s, i, esc_byte(b), 0);
            lemma_starts_at_index(s, i, esc_byte(b), 1);
            assert(dec_str(s, i) == Some((seq![s[i + 1]] + rest, i + esc(c).len() + 1)));
        } else if b < 0x20 {
            lemma_starts_at_index(s, i, esc_byte(b), 0);
            lemma_starts_at_index(s, i, esc_byte(b), 1);
            lemma_starts_at_index(s, i, esc_byte(b), 2);
            lemma_starts_at_index(s, i, esc_byte(b), 3);
            lemma_starts_at_index(s, i, esc_byte(b), 4);
            lemma_starts_at_index(s, i, esc_byte(b), 5);
            lemma_hex_digit_val(b / 16);
            lemma_hex_digit_val(b % 16);
            assert(s[i + 4] == hex_digit(b / 16) && s[i + 5] == hex_digit(b % 16));
            assert(b / 16 == 0 || b / 16 == 1);
            assert((s[i + 4] - 0x30) * 16 + hex_val(s[i + 5]) == b);
            assert(dec_str(s, i) == Some((seq![b] + rest, i + esc(c).len() + 1)));
        } else {
            lemma_starts_at_index(s, i, esc_byte(b), 0);
            assert(dec_str(s, i) == Some((seq![s[i]] + rest, i + esc(c).len() + 1)));
        }
    }
}

/// What string decoding consumed is exactly the escape of what it
/// returned, followed by the closing quote.
pub proof fn lemma_dec_str_sound(s: Seq<u8>, i: int)
    requires
        0 <= i <= s.len(),
        dec_str(s, i) is Some,
    ensures
        ({
            let (c, e) = dec_str(s, i)->Some_0;
            &&& i < e <= s.len()
            &&& e == i + esc(c).len() + 1
            &&& s.subrange(i, e) == esc(c) + str_end()
        }),
    decreases s.len() - i,
{
    let (c, e) = dec_str(s, i)->Some_0;
    if s[i] == 0x22 {
        assert(s.subrange(i, i + 1) =~= esc(Seq::<u8>::empty()) + str_end());
    } else if s[i] == 0x5c {
        if s[i + 1] == 0x22 || s[i + 1] == 0x5c {
            lemma_dec_str_sound(s, i + 2);
            let (rest, e2) = dec_str(s, i + 2)->Some_0;
            assert(c == seq![s[i + 1]] + rest);
            assert(esc_byte(s[i + 1]) =~= seq![0x5cu8, s[i + 1]]);
            lemma_esc_cons(s[i + 1], rest);
            assert(s.subrange(i, e) =~= esc_byte(s[i + 1]) + s.subrange(i + 2, e));
        } else {
            let b = (((s[i + 4] - 0x30) * 16 + hex_val(s[i + 5])) as u8);
            lemma_dec_str_sound(s, i + 6);
            let (rest, e2) = dec_str(s, i + 6)->Some_0;
            assert(c == seq![b] + rest);
            assert(b < 0x20) by {
                assert(s[i + 4] == 0x30 || s[i + 4] == 0x31);
                assert(hex_val(s[i + 5]) < 16);
            }
            assert(esc_byte(b) =~= seq![
                0x5cu8,
                0x75u8,
                0x30u8,
                0x30u8,
                hex_digit(b / 16),
                hex_digit(b % 16),
            ]);
            assert(hex_digit(b / 16) == s[i + 4] && hex_digit(b % 16) == s[i + 5]) by {
                assert(b / 16 == s[i + 4] - 0x30 && b % 16 == hex_val(s[i + 5]));
                lemma_hex_val_digit(s[i + 5]);
            }
            lemma_esc_cons(b, rest);
            assert(s.subrange(i, e) =~= esc_byte(b) + s.subrange(i + 6, e));
        }
    } else {
        lemma_dec_str_sound(s, i + 1);
        let (rest, e2) = dec_str(s, i + 1)->Some_0;
        assert(c == seq![s[i]] + rest);
        assert(esc_byte(s[i]) =~= seq![s[i]]);
        lemma_esc_cons(s[i], rest);
        assert(s.subrange(i, e) =~= esc_byte(s[i]) + s.subrange(i + 1, e));
    }
}

/// Escaping distributes over prepending one byte.
pub proof fn lemma_esc_cons(b: u8, rest: Seq<u8>)
    ensures
        esc(seq![b] + rest) == esc_byte(b) + esc(rest),
{
    assert((seq![b] + rest)[0] == b);
    assert((seq![b] + rest).drop_first() =~= rest);
}

/// `hex_digit` undoes `hex_val`.
pub proof fn lemma_hex_val_digit(b: u8)
    requires
        is_hex_lower(b),
    ensures
        hex_digit(hex_val(b)) == b,
{
}


/// Where the encoding of `r` sits at `i`, decoding a record at `i`
/// yields exactly `r` and stops just after it.
pub proof fn lemma_dec_rec_of_enc(s: Seq<u8>, i: int, r: Rec)
    requires
        starts_at(s, i, enc_rec(r)),
        rec_utf8(r),
    ensures
        dec_rec(s, i) == Some((r, i + enc_rec(r).len())),
{
    match r {
        Rec::SetRec { key, value } => {
            let r1 = esc(key) + str_end() + val_mid() + esc(value) + str_end() + rec_close();
            assert(enc_rec(r) =~= set_open() + r1);
            lemma_starts_at_concat(s, i, set_open(), r1);
            let i2 = i + set_open().len();
            let r2 = val_mid() + esc(value) + str_end() + rec_close();
            assert(r1 =~= (esc(key) + str_end()) + r2);
            lemma_starts_at_concat(s, i2, esc(key) + str_end(), r2);
            lemma_dec_str_of_esc(s, i2, key);
            let j = i2 + esc(key).len() + 1;
            let r3 = esc(value) + str_end() + rec_close();
            assert(r2 =~= val_mid() + r3);
            lemma_starts_at_concat(s, j, val_mid(), r3);
            let j2 = j + val_mid().len();
            assert(r3 =~= (esc(value) + str_end()) + rec_close());
            lemma_starts_at_concat(s, j2, esc(value) + str_end(), rec_close());
            lemma_dec_str_of_esc(s, j2, value);
            let e = j2 + esc(value).len() + 1;
            assert(starts_at(s, e, rec_close()));
            assert(dec_rec(s, i) == Some((r, e + rec_close().len())));
        },
        Rec::Rm { key } => {
            assert(!starts_at(s, i, set_open())) by {
                if starts_at(s, i, set_open()) {
                    lemma_starts_at_index(s, i, set_open(), 2);
                    lemma_starts_at_concat(s, i, rm_open(), esc(key) + str_end() + rec_close());
                    lemma_starts_at_index(s, i, rm_open(), 2);
                }
            }
            let r1 = esc(key) + str_end() + rec_close();
            assert(enc_rec(r) =~= rm_open() + r1);
            lemma_starts_at_concat(s, i, rm_open(), r1);
            let i2 = i + rm_open().len();
            assert(r1 =~= (esc(key) + str_end()) + rec_close());
            lemma_starts_at_concat(s, i2, esc(key) + str_end(), rec_close());
            lemma_dec_str_of_esc(s, i2, key);
            let e = i2 + esc(key).len() + 1;
            assert(starts_at(s, e, rec_close()));
            assert(dec_rec(s, i) == Some((r, e + rec_close().len())));
        },
        Rec::Get { key } => {
            assert(!starts_at(s, i, set_open()) && !starts_at(s, i, rm_open())) by {
                assert(enc_rec(r) =~= get_open() + (esc(key) + str_end() + rec_close()));
                lemma_starts_at_concat(s, i, get_open(), esc(key) + str_end() + rec_close());
                lemma_starts_at_index(s, i, get_open(), 2);
                if starts_at(s, i, set_open()) {
                    lemma_starts_at_index(s, i, set_open(), 2);
                }
                if starts_at(s, i, rm_open()) {
                    lemma_starts_at_index(s, i, rm_open(), 2);
                }
            }
            let r1 = esc(key) + str_end() + rec_close();
            assert(enc_rec(r) =~= get_open() + r1);
            lemma_starts_at_concat(s, i, get_open(), r1);
            let i2 = i + get_open().len();
            assert(r1 =~= (esc(key) + str_end()) + rec_close());
            lemma_starts_at_concat(s, i2, esc(key) + str_end(), rec_close());
            lemma_dec_str_of_esc(s, i2, key);
            let e = i2 + esc(key).len() + 1;
            assert(starts_at(s, e, rec_close()));
            assert(dec_rec(s, i) == Some((r, e + rec_close().len())));
        },
    }
}

/// What record decoding consumed is exactly the encoding of the
/// record it returned.
pub proof fn lemma_dec_rec_sound(s: Seq<u8>, i: int)
    requires
        dec_rec(s, i) is Some,
    ensures
        ({
            let (r, e) = dec_rec(s, i)->Some_0;
            &&& i < e <= s.len()
            &&& e == i + enc_rec(r).len()
            &&& s.subrange(i, e) == enc_rec(r)
            &&& rec_utf8(r)
        }),
{
    let (r, e) = dec_rec(s, i)->Some_0;
    if starts_at(s, i, set_open()) {
        let i2 = i + set_open().len();
        let (key, j) = dec_str(s, i2)->Some_0;
        lemma_dec_str_sound(s, i2);
        let j2 = j + val_mid().len();
        let (value, e0) = dec_str(s, j2)->Some_0;
        lemma_dec_str_sound(s, j2);
        assert(s.subrange(i, i2) == set_open());
        assert(s.subrange(j, j2) == val_mid());
        assert(s.subrange(e0, e) == rec_close());
        assert(s.subrange(i, e) =~= s.subrange(i, i2) + s.subrange(i2, j) + s.subrange(j, j2)
            + s.subrange(j2, e0) + s.subrange(e0, e));
        assert(enc_rec(r) =~= set_open() + (esc(key) + str_end()) + val_mid() + (esc(value)
            + str_end()) + rec_close());
    } else if starts_at(s, i, rm_open()) {
        let i2 = i + rm_open().len();
        let (key, e0) = dec_str(s, i2)->Some_0;
        lemma_dec_str_sound(s, i2);
        assert(s.subrange(i, i2) == rm_open());
        assert(s.subrange(e0, e) == rec_close());
        assert(s.subrange(i, e) =~= s.subrange(i, i2) + s.subrange(i2, e0) + s.subrange(e0, e));
        assert(enc_rec(r) =~= rm_open() + (esc(key) + str_end()) + rec_close());
    } else {
        let i2 = i + get_open().len();
        let (key, e0) = dec_str(s, i2)->Some_0;
        lemma_dec_str_sound(s, i2);
        assert(s.subrange(i, i2) == get_open());
        assert(s.subrange(e0, e) == rec_close());
        assert(s.subrange(i, e) =~= s.subrange(i, i2) + s.subrange(i2, e0) + s.subrange(e0, e));
        assert(enc_rec(r) =~= get_open() + (esc(key) + str_end()) + rec_close());
    }
}


/// The bytes of `{"Set":{"key":"`, as a value.
fn lit_set_open() -> (r: Vec<u8>)
    ensures
        r@ == set_open(),
{
    let mut v: Vec<u8> = Vec::new();
    v.push(0x7b);
    v.push(0x22);
    v.push(0x53);
    v.push(0x65);
    v.push(0x74);
    v.push(0x22);
    v.push(0x3a);
    v.push(0x7b);
    v.push(0x22);
    v.push(0x6b);
    v.push(0x65);
    v.push(0x79);
    v.push(0x22);
    v.push(0x3a);
    v.push(0x22);
    proof {
        assert(v@ =~= set_open());
    }
    v
}

/// The bytes of `{"Rm":{"key":"`, as a value.
fn lit_rm_open() -> (r: Vec<u8>)
    ensures
        r@ == rm_open(),
{
    let mut v: Vec<u8> = Vec::new();
    v.push(0x7b);
    v.push(0x22);
    v.push(0x52);
    v.push(0x6d);
    v.push(0x22);
    v.push(0x3a);
    v.push(0x7b);
    v.push(0x22);
    v.push(0x6b);
    v.push(0x65);
    v.push(0x79);
    v.push(0x22);
    v.push(0x3a);
    v.push(0x22);
    proof {
        assert(v@ =~= rm_open());
    }
    v
}

/// The bytes of `{"Get":{"key":"`, as a value.
fn lit_get_open() -> (r: Vec<u8>)
    ensures
        r@ == get_open(),
{
    let mut v: Vec<u8> = Vec::new();
    v.push(0x7b);
    v.push(0x22);
    v.push(0x47);
    v.push(0x65);
    v.push(0x74);
    v.push(0x22);
    v.push(0x3a);
    v.push(0x7b);
    v.push(0x22);
    v.push(0x6b);
    v.push(0x65);
    v.push(0x79);
    v.push(0x22);
    v.push(0x3a);
    v.push(0x22);
    proof {
        assert(v@ =~= get_open());
    }
    v
}

/// The bytes of `","value":"`, as a value.
fn lit_val_mid() -> (r: Vec<u8>)
    ensures
        r@ == val_mid(),
{
    let mut v: Vec<u8> = Vec::new();
    v.push(0x2c);
    v.push(0x22);
    v.push(0x76);
    v.push(0x61);
    v.push(0x6c);
    v.push(0x75);
    v.push(0x65);
    v.push(0x22);
    v.push(0x3a);
    v.push(0x22);
    proof {
        assert(v@ =~= val_mid());
    }
    v
}

/// True when the bytes of `pat` occur in `s` at `pos`.
pub(crate) fn bytes_match(s: &Vec<u8>, pos: usize, pat: &Vec<u8>) -> (b: bool)
    requires
        pos <= s.len(),
    ensures
        b == starts_at(s@, pos as int, pat@),
{
    if s.len() - pos < pat.len() {
        return false;
    }
    let mut i: usize = 0;
    while i < pat.len()
        invariant
            pos + pat.len() <= s.len(),
            i <= pat.len(),
            forall|k: int| 0 <= k < i ==> s@[pos + k] == pat@[k],
        decreases pat.len() - i,
    {
        if s[pos + i] != pat[i] {
            proof {
                if starts_at(s@, pos as int, pat@) {
                    lemma_starts_at_index(s@, pos as int, pat@, i as int);
                }
            }
            return false;
        }
        i += 1;
    }
    proof {
        assert(s@.subrange(pos as int, pos + pat@.len()) =~= pat@);
    }
    true
}

/// The lowercase hex digit for a nibble.
fn hex_digit_exec(n: u8) -> (r: u8)
    requires
        n < 16,
    ensures
        r == hex_digit(n),
{
    if n < 10 {
        0x30 + n
    } else {
        0x57 + n
    }
}

/// Appends the escaped form of `s` to `out`.
pub(crate) fn append_escaped(out: &mut Vec<u8>, s: &[u8])
    ensures
        final(out)@ == old(out)@ + esc(s@),
{
    let ghost base = out@;
    let mut i: usize = 0;
    while i < s.len()
        invariant
            i <= s.len(),
            out@ == base + esc(s@.take(i as int)),
        decreases s.len() - i,
    {
        let b = s[i];
        proof {
            lemma_esc_snoc(s@.take(i as int), b);
            assert(s@.take(i + 1 as int) =~= s@.take(i as int).push(b));
        }
        if b == 0x22 {
            out.push(0x5c);
            out.push(0x22);
        } else if b == 0x5c {
            out.push(0x5c);
            out.push(0x5c);
        } else if b < 0x20 {
            out.push(0x5c);
            out.push(0x75);
            out.push(0x30);
            out.push(0x30);
            out.push(hex_digit_exec(b / 16));
            out.push(hex_digit_exec(b % 16));
        } else {
            out.push(b);
        }
        proof {
            assert(out@ =~= base + esc(s@.take(i + 1 as int)));
        }
        i += 1;
    }
    proof {
        assert(s@.take(s@.len() as int) =~= s@);
    }
}

/// Encodes a command into its canonical serialized form.
pub fn encode_command(cmd: &Command) -> (r: Vec<u8>)
    ensures
        r@ == enc_rec(cmd@),
{
    broadcast use vstd::string::group_string_axioms;

    let mut out: Vec<u8> = Vec::new();
    match cmd {
        Command::SetCmd { key, value } => {
            let mut f = lit_set_open();
            out.append(&mut f);
            append_escaped(&mut out, key.as_str().as_bytes());
            out.push(0x22);
            let mut m = lit_val_mid();
            out.append(&mut m);
            append_escaped(&mut out, value.as_str().as_bytes());
            out.push(0x22);
            out.push(0x7d);
            out.push(0x7d);
            proof {
                assert(out@ =~= enc_rec(cmd@));
            }
        },
        Command::Rm { key } => {
            let mut f = lit_rm_open();
            out.append(&mut f);
            append_escaped(&mut out, key.as_str().as_bytes());
            out.push(0x22);
            out.push(0x7d);
            out.push(0x7d);
            proof {
                assert(out@ =~= enc_rec(cmd@));
            }
        },
        Command::Get { key } => {
            let mut f = lit_get_open();
            out.append(&mut f);
            append_escaped(&mut out, key.as_str().as_bytes());
            out.push(0x22);
            out.push(0x7d);
            out.push(0x7d);
            proof {
                assert(out@ =~= enc_rec(cmd@));
            }
        },
    }
    out
}

/// Relies on `String::from_utf8`: it succeeds exactly on valid UTF-8
/// input and returns the string whose UTF-8 encoding is that input.
#[verifier::external_body]
pub(crate) fn bytes_to_string(v: Vec<u8>) -> (r: Option<String>)
    ensures
        r is Some <==> vstd::utf8::valid_utf8(v@),
        r matches Some(s) ==> s@ == vstd::utf8::decode_utf8(v@),
{
    String::from_utf8(v).ok()
}

/// Decodes escaped string content at `pos`, up to and including the
/// closing quote.
pub(crate) fn decode_str_at(s: &Vec<u8>, pos: usize) -> (r: Option<(Vec<u8>, usize)>)
    requires
        pos <= s.len(),
    ensures
        r matches Some((c, e)) ==> dec_str(s@, pos as int) == Some((c@, e as int)) && pos < e
            <= s.len(),
        r is None ==> dec_str(s@, pos as int) is None,
{
    let mut acc: Vec<u8> = Vec::new();
    let mut cur = pos;
    proof {
        if dec_str(s@, pos as int) is Some {
            let (c, e) = dec_str(s@, pos as int)->Some_0;
            assert(Seq::<u8>::empty() + c =~= c);
        }
    }
    loop
        invariant
            pos <= cur <= s.len(),
            dec_str(s@, cur as int) matches Some((c, e)) ==> dec_str(s@, pos as int) == Some(
                (acc@ + c, e),
            ),
            dec_str(s@, cur as int) is None ==> dec_str(s@, pos as int) is None,
        decreases s.len() - cur,
    {
        if cur == s.len() {
            return None;
        }
        let b = s[cur];
        if b == 0x22 {
            proof {
                assert(acc@ + Seq::<u8>::empty() =~= acc@);
            }
            return Some((acc, cur + 1));
        } else if b == 0x5c {
            if s.len() - cur < 2 {
                return None;
            }
            let b2 = s[cur + 1];
            if b2 == 0x22 || b2 == 0x5c {
                proof {
                    if dec_str(s@, cur + 2 as int) is Some {
                        let (c2, e2) = dec_str(s@, cur + 2 as int)->Some_0;
                        assert(dec_str(s@, cur as int) == Some((seq![b2] + c2, e2)));
                        assert(acc@ + (seq![b2] + c2) =~= acc@.push(b2) + c2);
                    }
                }
                acc.push(b2);
                cur = cur + 2;
            } else if b2 == 0x75 {
                if s.len() - cur < 6 {
                    return None;
                }
                let b3 = s[cur + 2];
                let b4 = s[cur + 3];
                let b5 = s[cur + 4];
                let b6 = s[cur + 5];
                if b3 == 0x30 && b4 == 0x30 && (b5 == 0x30 || b5 == 0x31) && ((0x30 <= b6 && b6
                    <= 0x39) || (0x61 <= b6 && b6 <= 0x66)) {
                    let hv = if b6 <= 0x39 {
                        b6 - 0x30
                    } else {
                        b6 - 0x57
                    };
                    let dec = (b5 - 0x30) * 16 + hv;
                    proof {
                        assert(hv == hex_val(b6));
                        if dec_str(s@, cur + 6 as int) is Some {
                            let (c2, e2) = dec_str(s@, cur + 6 as int)->Some_0;
                            assert(dec_str(s@, cur as int) == Some((seq![dec] + c2, e2)));
                            assert(acc@ + (seq![dec] + c2) =~= acc@.push(dec) + c2);
                        }
                    }
                    acc.push(dec);
                    cur = cur + 6;
                } else {
                    return None;
                }
            } else {
                return None;
            }
        } else if b < 0x20 {
            return None;
        } else {
            proof {
                if dec_str(s@, cur + 1 as int) is Some {
                    let (c2, e2) = dec_str(s@, cur + 1 as int)->Some_0;
                    assert(dec_str(s@, cur as int) == Some((seq![b] + c2, e2)));
                    assert(acc@ + (seq![b] + c2) =~= acc@.push(b) + c2);
                }
            }
            acc.push(b);
            cur = cur + 1;
        }
    }
}

/// Decodes one command starting at `pos` of a serialized stream.
/// On success the returned position is the first byte after the
/// record, so `end - pos` is the record's length on disk.
pub fn decode_command_at(s: &Vec<u8>, pos: usize) -> (r: Result<(Command, usize), KvsError>)
    requires
        pos <= s.len(),
    ensures
        r matches Ok((cmd, end)) ==> dec_rec(s@, pos as int) == Some((cmd@, end as int)) && pos
            < end <= s.len(),
        r is Err ==> dec_rec(s@, pos as int) is None,
        r matches Err(e) ==> e is Serde,
{
    broadcast use vstd::utf8::decode_utf8_encode_utf8;

    let so = lit_set_open();
    let ro = lit_rm_open();
    let go = lit_get_open();
    let vm = lit_val_mid();
    if bytes_match(s, pos, &so) {
        let kpos = pos + 15;
        match decode_str_at(s, kpos) {
            Some((kb, j)) => {
                if bytes_match(s, j, &vm) {
                    let vpos = j + 10;
                    match decode_str_at(s, vpos) {
                        Some((vb, e)) => {
                            if s.len() - e >= 2 && {
                                let c1 = s[e];
                                let c2 = s[e + 1];
                                c1 == 0x7d && c2 == 0x7d
                            } {
                                proof {
                                    assert(s@.subrange(e as int, e + 2 as int) =~= rec_close());
                                    assert(starts_at(s@, e as int, rec_close()));
                                }
                                let ghost kseq = kb@;
                                let ghost vseq = vb@;
                                match bytes_to_string(kb) {
                                    Some(key) => match bytes_to_string(vb) {
                                        Some(value) => {
                                            proof {
                                                assert(vstd::utf8::encode_utf8(key@) == kseq);
                                                assert(vstd::utf8::encode_utf8(value@) == vseq);
                                            }
                                            Ok((Command::SetCmd { key, value }, e + 2))
                                        },
                                        None => Err(
                                            KvsError::Serde("record value is not UTF-8".to_owned()),
                                        ),
                                    },
                                    None => Err(
                                        KvsError::Serde("record key is not UTF-8".to_owned()),
                                    ),
                                }
                            } else {
                                proof {
                                    if starts_at(s@, e as int, rec_close()) {
                                        lemma_starts_at_index(s@, e as int, rec_close(), 0);
                                        lemma_starts_at_index(s@, e as int, rec_close(), 1);
                                    }
                                }
                                Err(KvsError::Serde("unterminated record".to_owned()))
                            }
                        },
                        None => Err(KvsError::Serde("malformed value string".to_owned())),
                    }
                } else {
                    Err(KvsError::Serde("malformed record".to_owned()))
                }
            },
            None => Err(KvsError::Serde("malformed key string".to_owned())),
        }
    } else if bytes_match(s, pos, &ro) {
        let kpos = pos + 14;
        match decode_str_at(s, kpos) {
            Some((kb, e)) => {
                if s.len() - e >= 2 && {
                    let c1 = s[e];
                    let c2 = s[e + 1];
                    c1 == 0x7d && c2 == 0x7d
                } {
                    proof {
                        assert(s@.subrange(e as int, e + 2 as int) =~= rec_close());
                        assert(starts_at(s@, e as int, rec_close()));
                    }
                    let ghost kseq = kb@;
                    match bytes_to_string(kb) {
                        Some(key) => {
                            proof {
                                assert(vstd::utf8::encode_utf8(key@) == kseq);
                            }
                            Ok((Command::Rm { key }, e + 2))
                        },
                        None => Err(KvsError::Serde("record key is not UTF-8".to_owned())),
                    }
                } else {
                    proof {
                        if starts_at(s@, e as int, rec_close()) {
                            lemma_starts_at_index(s@, e as int, rec_close(), 0);
                            lemma_starts_at_index(s@, e as int, rec_close(), 1);
                        }
                    }
                    Err(KvsError::Serde("unterminated record".to_owned()))
                }
            },
            None => Err(KvsError::Serde("malformed key string".to_owned())),
        }
    } else if bytes_match(s, pos, &go) {
        let kpos = pos + 15;
        match decode_str_at(s, kpos) {
            Some((kb, e)) => {
                if s.len() - e >= 2 && {
                    let c1 = s[e];
                    let c2 = s[e + 1];
                    c1 == 0x7d && c2 == 0x7d
                } {
                    proof {
                        assert(s@.subrange(e as int, e + 2 as int) =~= rec_close());
                        assert(starts_at(s@, e as int, rec_close()));
                    }
                    let ghost kseq = kb@;
                    match bytes_to_string(kb) {
                        Some(key) => {
                            proof {
                                assert(vstd::utf8::encode_utf8(key@) == kseq);
                            }
                            Ok((Command::Get { key }, e + 2))
                        },
                        None => Err(KvsError::Serde("record key is not UTF-8".to_owned())),
                    }
                } else {
                    proof {
                        if starts_at(s@, e as int, rec_close()) {
                            lemma_starts_at_index(s@, e as int, rec_close(), 0);
                            lemma_starts_at_index(s@, e as int, rec_close(), 1);
                        }
                    }
                    Err(KvsError::Serde("unterminated record".to_owned()))
                }
            },
            None => Err(KvsError::Serde("malformed key string".to_owned())),
        }
    } else {
        Err(KvsError::Serde("unrecognized record".to_owned()))
    }
}


/// One content byte escapes to at most six bytes.
pub proof fn lemma_esc_len(s: Seq<u8>)
    ensures
        esc(s).len() <= 6 * s.len(),
    decreases s.len(),
{
    if s.len() > 0 {
        lemma_esc_len(s.drop_first());
    }
}

/// A record's encoding is its frame, at most 29 bytes, plus at most
/// six bytes per content byte: every record of bounded content fits.
pub proof fn lemma_enc_rec_len(r: Rec)
    ensures
        r matches Rec::SetRec { key, value } ==> enc_rec(r).len() <= 29 + 6 * key.len() + 6
            * value.len(),
        r matches Rec::Rm { key } ==> enc_rec(r).len() <= 17 + 6 * key.len(),
        r matches Rec::Get { key } ==> enc_rec(r).len() <= 18 + 6 * key.len(),
{
    match r {
        Rec::SetRec { key, value } => {
            lemma_esc_len(key);
            lemma_esc_len(value);
        },
        Rec::Rm { key } => {
            lemma_esc_len(key);
        },
        Rec::Get { key } => {
            lemma_esc_len(key);
        },
    }
}


/// Escaped units cancel on the left: where the escape of `a` is a
/// prefix of the escape of `c` followed by the closing quote and
/// anything, `a` is a prefix of `c`, and what remains after `a`'s
/// escape is the escape of the rest of `c` with the same ending.
pub proof fn lemma_esc_prefix_cancel(a: Seq<u8>, c: Seq<u8>, u: Seq<u8>)
    requires
        esc(a).is_prefix_of(esc(c) + str_end() + u),
    ensures
        exists|c2: Seq<u8>|
            c == a + c2 && (esc(c) + str_end() + u).skip(esc(a).len() as int) == (#[trigger] esc(
                c2,
            )) + str_end() + u,
    decreases a.len(),
{
    let target = esc(c) + str_end() + u;
    if a.len() == 0 {
        assert(c == a + c);
        assert(target.skip(0) =~= target);
        assert(c == a + c && target.skip(esc(a).len() as int) == esc(c) + str_end() + u);
    } else {
        let b0 = a[0];
        let arest = a.drop_first();
        assert(esc(a) == esc_byte(b0) + esc(arest));
        assert(forall|k: int|
            0 <= k < esc(a).len() ==> esc(a)[k] == #[trigger] target[k]) by {
            assert(esc(a) =~= target.subrange(0, esc(a).len() as int));
        }
        assert(esc(a)[0] == esc_byte(b0)[0]);
        if c.len() == 0 {
            assert(target =~= str_end() + u);
            assert(target[0] == 0x22);
            assert(esc_byte(b0)[0] != 0x22);
            assert(false);
        }
        let c0 = c[0];
        let crest = c.drop_first();
        assert(esc(c) == esc_byte(c0) + esc(crest));
        let t2 = esc(crest) + str_end() + u;
        assert(target =~= esc_byte(c0) + t2);
        assert(forall|k: int| 0 <= k < esc_byte(c0).len() ==> target[k] == esc_byte(c0)[k]);
        // the first escaped unit on each side is the same byte
        assert(c0 == b0) by {
            if b0 == 0x22 || b0 == 0x5c {
                assert(esc_byte(b0) =~= seq![0x5cu8, b0]);
                assert(target[0] == 0x5c && target[1] == b0);
                assert(esc_byte(c0)[0] == 0x5c);
                if c0 == 0x22 || c0 == 0x5c {
                    assert(esc_byte(c0)[1] == c0);
                } else if c0 < 0x20 {
                    assert(esc_byte(c0)[1] == 0x75);
                    assert(false);
                } else {
                    assert(esc_byte(c0)[0] == c0);
                    assert(false);
                }
            } else if b0 < 0x20 {
                assert(esc_byte(b0) =~= seq![
                    0x5cu8,
                    0x75u8,
                    0x30u8,
                    0x30u8,
                    hex_digit(b0 / 16),
                    hex_digit(b0 % 16),
                ]);
                assert(target[0] == 0x5c && target[1] == 0x75);
                if c0 == 0x22 || c0 == 0x5c {
                    assert(esc_byte(c0)[1] == c0);
                    assert(false);
                } else if c0 < 0x20 {
                    assert(esc_byte(c0)[4] == hex_digit(c0 / 16) && esc_byte(c0)[5] == hex_digit(
                        c0 % 16,
                    ));
                    assert(target[4] == hex_digit(b0 / 16) && target[5] == hex_digit(b0 % 16));
                    lemma_hex_digit_val(b0 / 16);
                    lemma_hex_digit_val(b0 % 16);
                    lemma_hex_digit_val(c0 / 16);
                    lemma_hex_digit_val(c0 % 16);
                    assert(c0 / 16 == b0 / 16 && c0 % 16 == b0 % 16);
                } else {
                    assert(esc_byte(c0)[0] == c0);
                    assert(false);
                }
            } else {
                assert(esc_byte(b0) =~= seq![b0]);
                assert(target[0] == b0);
                if c0 == 0x22 || c0 == 0x5c || c0 < 0x20 {
                    assert(esc_byte(c0)[0] == 0x5c);
                    assert(false);
                } else {
                    assert(esc_byte(c0)[0] == c0);
                }
            }
        }
        // drop the shared unit and recurse
        assert(esc(arest).is_prefix_of(t2)) by {
            assert(esc_byte(c0) == esc_byte(b0));
            assert(esc(arest).len() + esc_byte(b0).len() == esc(a).len());
            assert(esc(arest) =~= t2.subrange(0, esc(arest).len() as int)) by {
                assert forall|k: int| 0 <= k < esc(arest).len() implies esc(arest)[k] == t2[k] by {
                    assert(esc(arest)[k] == esc(a)[esc_byte(b0).len() + k]);
                    assert(target[esc_byte(b0).len() + k] == t2[k]);
                }
            }
        }
        lemma_esc_prefix_cancel(arest, crest, u);
        let c2 = choose|c2: Seq<u8>|
            crest == arest + c2 && t2.skip(esc(arest).len() as int) == (#[trigger] esc(c2))
                + str_end() + u;
        assert(crest == arest + c2);
        assert(c =~= a + c2) by {
            assert(c.len() == 1 + crest.len());
            assert forall|k: int| 0 <= k < c.len() implies c[k] == (a + c2)[k] by {
                if k == 0 {
                    assert(c[0] == c0 && (a + c2)[0] == a[0]);
                } else {
                    assert(c[k] == crest[k - 1]);
                    assert(crest[k - 1] == (arest + c2)[k - 1]);
                    if k < a.len() {
                        assert((arest + c2)[k - 1] == arest[k - 1]);
                        assert(a[k] == arest[k - 1]);
                    } else {
                        assert((arest + c2)[k - 1] == c2[k - 1 - arest.len()]);
                    }
                }
            }
        }
        assert(target.skip(esc(a).len() as int) =~= t2.skip(esc(arest).len() as int)) by {
            assert forall|k: int|
                0 <= k < target.len() - esc(a).len() implies target.skip(esc(a).len() as int)[k]
                == t2.skip(esc(arest).len() as int)[k] by {
                assert(target.skip(esc(a).len() as int)[k] == target[esc(a).len() + k]);
                assert(target[esc(a).len() + k] == t2[esc(arest).len() + k]);
            }
        }
        assert(c == a + c2 && target.skip(esc(a).len() as int) == esc(c2) + str_end() + u);
    }
}

} // verus!
