//! The paste hotkey setting: finding `key = value` in the configuration
//! text and turning a value such as `ctrl+shift+v` into modifier flags and a
//! key code.
use vstd::prelude::*;
use vstd::utf8::{encode_utf8, is_ascii_chars};
use vstd::string::StrSliceExecFns;
use crate::text::{
    chars_of, range_starts_with, skip_class_start, starts_with, trim, trim_quotes,
    trim_quotes_range, trim_range, trim_start, chars_eq, is_ws, lemma_trim_padding,
    lemma_trim_class_exact, lemma_trim_start_of_ws_prefix, lemma_trim_start_stops,
};
use crate::split::{line_ranges, lines, ranges_are, split_on, split_ranges};

verus! {

/// The value of `key` on one line: the line, trimmed, starts with `key`, then
/// (after optional whitespace) `=`; the rest, trimmed and without surrounding
/// double quotes.
pub open spec fn line_value(l: Seq<char>, key: Seq<char>) -> Option<Seq<char>> {
    let t = trim(l);
    if starts_with(t, key) {
        let r = trim_start(t.skip(key.len() as int));
        if r.len() > 0 && r[0] == '=' {
            Some(trim_quotes(trim(r.skip(1))))
        } else {
            None
        }
    } else {
        None
    }
}

/// The value on the first line that has one for `key`.
pub open spec fn find_in(ls: Seq<Seq<char>>, key: Seq<char>) -> Option<Seq<char>>
    decreases ls.len(),
{
    if ls.len() == 0 {
        None
    } else {
        match line_value(ls[0], key) {
            Some(v) => Some(v),
            None => find_in(ls.drop_first(), key),
        }
    }
}

/// A line `key = value` gives its value whatever whitespace surrounds the key,
/// the `=` and the value, and with or without double quotes around the value:
/// the line `w1 + key + w2 + "=" + w3 + q1 + v + q2 + w4`, where the `w` are
/// whitespace and the `q` double quotes, gives `v` when `v` is non-empty and
/// neither starts nor ends with whitespace or a double quote.
pub proof fn lemma_line_value_reads(
    w1: Seq<char>,
    key: Seq<char>,
    w2: Seq<char>,
    w3: Seq<char>,
    q1: Seq<char>,
    v: Seq<char>,
    q2: Seq<char>,
    w4: Seq<char>,
)
    requires
        forall|i: int| 0 <= i < w1.len() ==> is_ws(#[trigger] w1[i]),
        forall|i: int| 0 <= i < w2.len() ==> is_ws(#[trigger] w2[i]),
        forall|i: int| 0 <= i < w3.len() ==> is_ws(#[trigger] w3[i]),
        forall|i: int| 0 <= i < w4.len() ==> is_ws(#[trigger] w4[i]),
        forall|i: int| 0 <= i < q1.len() ==> #[trigger] q1[i] == '"',
        forall|i: int| 0 <= i < q2.len() ==> #[trigger] q2[i] == '"',
        key.len() > 0,
        !is_ws(key[0]),
        v.len() > 0,
        !is_ws(v[0]) && v[0] != '"',
        !is_ws(v.last()) && v.last() != '"',
    ensures
        line_value(w1 + key + w2 + "="@ + w3 + q1 + v + q2 + w4, key) == Some(v),
{
    reveal_strlit("=");
    let eq = "="@;
    let qv = q1 + v + q2;
    let x = w3 + qv;
    let m = key + w2 + eq + x;
    let l = w1 + key + w2 + eq + w3 + q1 + v + q2 + w4;
    assert(l =~= w1 + m + w4);
    assert(m[0] == key[0]);
    assert(qv.len() > 0);
    if q1.len() > 0 {
        assert(qv[0] == q1[0]);
    } else {
        assert(qv[0] == v[0]);
    }
    if q2.len() > 0 {
        assert(qv.last() == q2[q2.len() - 1]);
    } else {
        assert(qv.last() == v.last());
    }
    assert(m.last() == qv.last());
    lemma_trim_class_exact(w1, m, w4, false);
    assert(trim(l) == m);
    assert(m.subrange(0, key.len() as int) =~= key);
    let rest = m.skip(key.len() as int);
    assert(rest =~= w2 + (eq + x));
    lemma_trim_start_of_ws_prefix(w2, eq + x);
    assert((eq + x)[0] == '=');
    lemma_trim_start_stops(eq + x, false);
    let r = trim_start(rest);
    assert(r == eq + x);
    assert(r.skip(1) =~= x);
    assert(x =~= w3 + qv + Seq::<char>::empty());
    lemma_trim_class_exact(w3, qv, Seq::<char>::empty(), false);
    assert(trim(x) == qv);
    lemma_trim_class_exact(q1, v, q2, true);
}

/// The value found is that of the first line that has one: when line `k` has
/// a value for `key` and no line before it has, that value is found; when no
/// line has one, nothing is.
pub proof fn lemma_find_first(ls: Seq<Seq<char>>, key: Seq<char>, k: int)
    requires
        0 <= k <= ls.len(),
        forall|j: int| 0 <= j < k ==> line_value(#[trigger] ls[j], key) is None,
    ensures
        k < ls.len() && line_value(ls[k], key) is Some ==> find_in(ls, key) == line_value(ls[k], key),
        k == ls.len() ==> find_in(ls, key) is None,
    decreases k,
{
    if k > 0 {
        let t = ls.drop_first();
        assert(line_value(ls[0], key) is None);
        assert forall|j: int| 0 <= j < k - 1 implies line_value(#[trigger] t[j], key) is None by {
            assert(t[j] == ls[j + 1]);
        }
        lemma_find_first(t, key, k - 1);
        if k < ls.len() {
            assert(t[k - 1] == ls[k]);
        }
    }
}

/// Finds the value of `key` in the configuration text `c`: the first line that,
/// trimmed, reads `key = value` (`value` trimmed, without surrounding quotes).
pub fn find<'a>(c: &'a str, key: &str) -> (r: Option<&'a str>)
    ensures
        match r {
            Some(v) => find_in(lines(c@), key@) == Some(v@),
            None => find_in(lines(c@), key@) is None,
        },
{
    let v = chars_of(c);
    let kv = chars_of(key);
    let lr = line_ranges(v.as_slice());
    let ghost ls = lines(v@);
    let mut k: usize = 0;
    assert(ls.skip(0) =~= ls);
    while k < lr.len()
        invariant
            v@ == c@,
            ls == lines(c@),
            kv@ == key@,
            ranges_are(v@, lr@, ls),
            k <= lr@.len(),
            find_in(ls, key@) == find_in(ls.skip(k as int), key@),
        decreases lr.len() - k,
    {
        let (a, b) = lr[k];
        let ghost l = v@.subrange(a as int, b as int);
        assert(ls[k as int] == l);
        assert(ls.skip(k as int)[0] == l);
        assert(ls.skip(k as int).drop_first() =~= ls.skip(k + 1));
        let (ts, te) = trim_range(v.as_slice(), a, b);
        let ghost t = v@.subrange(ts as int, te as int);
        if range_starts_with(v.as_slice(), ts, te, kv.as_slice()) {
            let i = ts + kv.len();
            assert(t.skip(kv@.len() as int) =~= v@.subrange(i as int, te as int));
            let rs = skip_class_start(v.as_slice(), i, te, false);
            if rs < te && v[rs] == '=' {
                let ghost r = v@.subrange(rs as int, te as int);
                assert(r.skip(1) =~= v@.subrange(rs + 1, te as int));
                let (x, y) = trim_range(v.as_slice(), rs + 1, te);
                let (q1, q2) = trim_quotes_range(v.as_slice(), x, y);
                assert(r[0] == v@[rs as int]);
                assert(line_value(l, key@) == Some(v@.subrange(q1 as int, q2 as int)));
                assert(ls.skip(k as int).len() > 0);
                assert(find_in(ls.skip(k as int), key@) == Some(v@.subrange(q1 as int, q2 as int)));
                let res = c.substring_char(q1, q2);
                assert(res@ == v@.subrange(q1 as int, q2 as int));
                return Some(res);
            }
        }
        k = k + 1;
    }
    None
}

/// The key code for a key name: the name must be a single lowercase ASCII
/// letter or digit (one byte), which picks the macOS virtual key code of that key.
pub open spec fn keycode_of(bytes: Seq<u8>) -> Option<u16> {
    if bytes.len() != 1 {
        None
    } else {
        let c = bytes[0];
        if 97 <= c <= 122 {
            Some(
                seq![
                    0x00u16, 0x0B, 0x08, 0x02, 0x0E, 0x03, 0x05, 0x04, 0x22, 0x26, 0x28, 0x25,
                    0x2E, 0x2D, 0x1F, 0x23, 0x0C, 0x0F, 0x01, 0x11, 0x20, 0x09, 0x0D, 0x07,
                    0x10, 0x06,
                ][c - 97],
            )
        } else if 48 <= c <= 57 {
            Some(seq![0x1Du16, 0x12, 0x13, 0x14, 0x15, 0x17, 0x16, 0x1A, 0x1C, 0x19][c - 48])
        } else {
            None
        }
    }
}

/// The key codes are the macOS `kVK_ANSI_*` virtual key codes of the keys
/// `a`..`z` and `0`..`9`, named by their single (ASCII) byte.
pub proof fn lemma_keycode_table()
    ensures
        keycode_of(seq![97u8]) == Some(0x00u16),  // a
        keycode_of(seq![98u8]) == Some(0x0Bu16),  // b
        keycode_of(seq![99u8]) == Some(0x08u16),  // c
        keycode_of(seq![100u8]) == Some(0x02u16),  // d
        keycode_of(seq![101u8]) == Some(0x0Eu16),  // e
        keycode_of(seq![102u8]) == Some(0x03u16),  // f
        keycode_of(seq![103u8]) == Some(0x05u16),  // g
        keycode_of(seq![104u8]) == Some(0x04u16),  // h
        keycode_of(seq![105u8]) == Some(0x22u16),  // i
        keycode_of(seq![106u8]) == Some(0x26u16),  // j
        keycode_of(seq![107u8]) == Some(0x28u16),  // k
        keycode_of(seq![108u8]) == Some(0x25u16),  // l
        keycode_of(seq![109u8]) == Some(0x2Eu16),  // m
        keycode_of(seq![110u8]) == Some(0x2Du16),  // n
        keycode_of(seq![111u8]) == Some(0x1Fu16),  // o
        keycode_of(seq![112u8]) == Some(0x23u16),  // p
        keycode_of(seq![113u8]) == Some(0x0Cu16),  // q
        keycode_of(seq![114u8]) == Some(0x0Fu16),  // r
        keycode_of(seq![115u8]) == Some(0x01u16),  // s
        keycode_of(seq![116u8]) == Some(0x11u16),  // t
        keycode_of(seq![117u8]) == Some(0x20u16),  // u
        keycode_of(seq![118u8]) == Some(0x09u16),  // v
        keycode_of(seq![119u8]) == Some(0x0Du16),  // w
        keycode_of(seq![120u8]) == Some(0x07u16),  // x
        keycode_of(seq![121u8]) == Some(0x10u16),  // y
        keycode_of(seq![122u8]) == Some(0x06u16),  // z
        keycode_of(seq![48u8]) == Some(0x1Du16),  // 0
        keycode_of(seq![49u8]) == Some(0x12u16),  // 1
        keycode_of(seq![50u8]) == Some(0x13u16),  // 2
        keycode_of(seq![51u8]) == Some(0x14u16),  // 3
        keycode_of(seq![52u8]) == Some(0x15u16),  // 4
        keycode_of(seq![53u8]) == Some(0x17u16),  // 5
        keycode_of(seq![54u8]) == Some(0x16u16),  // 6
        keycode_of(seq![55u8]) == Some(0x1Au16),  // 7
        keycode_of(seq![56u8]) == Some(0x1Cu16),  // 8
        keycode_of(seq![57u8]) == Some(0x19u16),  // 9
{
}

/// Only a one-byte name can have a key code.
pub proof fn lemma_keycode_single_byte(bytes: Seq<u8>)
    requires
        bytes.len() != 1,
    ensures
        keycode_of(bytes) is None,
{
}

/// The macOS virtual key code of a key named by one letter `a`..`z` or one
/// digit `0`..`9`; any other name, longer ones included, has none.
pub fn keycode(k: &str) -> (r: Option<u16>)
    ensures
        r == keycode_of(encode_utf8(k@)),
{
    let bytes = k.as_bytes();
    if bytes.len() != 1 {
        return None;
    }
    let c = bytes[0];
    let letters: [u16; 26] = [
        0x00,
        0x0B,
        0x08,
        0x02,
        0x0E,
        0x03,
        0x05,
        0x04,
        0x22,
        0x26,
        0x28,
        0x25,
        0x2E,
        0x2D,
        0x1F,
        0x23,
        0x0C,
        0x0F,
        0x01,
        0x11,
        0x20,
        0x09,
        0x0D,
        0x07,
        0x10,
        0x06,
    ];
    let digits: [u16; 10] = [0x1D, 0x12, 0x13, 0x14, 0x15, 0x17, 0x16, 0x1A, 0x1C, 0x19];
    assert(letters@ == seq![
        0x00u16, 0x0B, 0x08, 0x02, 0x0E, 0x03, 0x05, 0x04, 0x22, 0x26, 0x28, 0x25, 0x2E, 0x2D,
        0x1F, 0x23, 0x0C, 0x0F, 0x01, 0x11, 0x20, 0x09, 0x0D, 0x07, 0x10, 0x06,
    ]);
    assert(digits@ == seq![0x1Du16, 0x12, 0x13, 0x14, 0x15, 0x17, 0x16, 0x1A, 0x1C, 0x19]);
    if 97 <= c && c <= 122 {
        Some(letters[(c - 97) as usize])
    } else if 48 <= c && c <= 57 {
        Some(digits[(c - 48) as usize])
    } else {
        None
    }
}

/// `str::to_lowercase`: the Unicode lowercase mapping of a string.
pub uninterp spec fn spec_to_lowercase(s: Seq<char>) -> Seq<char>;

/// ASCII lowercasing of one character: `A`..`Z` become `a`..`z`.
pub open spec fn ascii_lower_char(c: char) -> char {
    if 'A' <= c <= 'Z' {
        ((c as int) + 32) as char
    } else {
        c
    }
}

/// ASCII lowercasing of a string.
pub open spec fn ascii_lowercase(s: Seq<char>) -> Seq<char> {
    s.map_values(|c: char| ascii_lower_char(c))
}

/// Calls `str::to_lowercase`. Claims that the result is a function of the
/// characters of `s`, and, as std documents, that on ASCII text it maps `A`..`Z`
/// to `a`..`z` and leaves every other character as it is. The Unicode mapping
/// of other characters is not written out.
#[verifier::external_body]
fn to_lowercase(s: &str) -> (r: String)
    ensures
        r@ == spec_to_lowercase(s@),
        is_ascii_chars(s@) ==> r@ == ascii_lowercase(s@),
{
    s.to_lowercase()
}

/// The lowercase form of a hotkey part.
pub open spec fn lowercase_of(s: Seq<char>) -> Seq<char> {
    if is_ascii_chars(s) {
        ascii_lowercase(s)
    } else {
        spec_to_lowercase(s)
    }
}

/// The modifier flag named by a lowercased hotkey part.
pub open spec fn modifier_flag(t: Seq<char>) -> Option<u64> {
    if t == "ctrl"@ || t == "control"@ {
        Some(0x40000)
    } else if t == "cmd"@ || t == "command"@ {
        Some(0x100000)
    } else if t == "shift"@ {
        Some(0x20000)
    } else if t == "alt"@ || t == "option"@ {
        Some(0x80000)
    } else {
        None
    }
}

/// What one lowercased part of a hotkey names.
pub enum HotkeyPart {
    /// A modifier, with its flag.
    Modifier(u64),
    /// A key, with its key code if it has one.
    Key(Option<u16>),
}

pub open spec fn part_meaning(t: Seq<char>) -> HotkeyPart {
    match modifier_flag(t) {
        Some(f) => HotkeyPart::Modifier(f),
        None => HotkeyPart::Key(keycode_of(encode_utf8(t))),
    }
}

/// Classifies one lowercased part of a hotkey setting.
pub fn hotkey_part(lowered: &str) -> (r: HotkeyPart)
    ensures
        r == part_meaning(lowered@),
{
    let t = chars_of(lowered);
    let ctrl = chars_of("ctrl");
    let control = chars_of("control");
    let cmd = chars_of("cmd");
    let command = chars_of("command");
    let shift = chars_of("shift");
    let alt = chars_of("alt");
    let option = chars_of("option");
    if chars_eq(t.as_slice(), ctrl.as_slice()) || chars_eq(t.as_slice(), control.as_slice()) {
        HotkeyPart::Modifier(0x40000)
    } else if chars_eq(t.as_slice(), cmd.as_slice()) || chars_eq(t.as_slice(), command.as_slice()) {
        HotkeyPart::Modifier(0x100000)
    } else if chars_eq(t.as_slice(), shift.as_slice()) {
        HotkeyPart::Modifier(0x20000)
    } else if chars_eq(t.as_slice(), alt.as_slice()) || chars_eq(t.as_slice(), option.as_slice()) {
        HotkeyPart::Modifier(0x80000)
    } else {
        HotkeyPart::Key(keycode(lowered))
    }
}

/// The meaning of one raw part of a hotkey setting: trimmed, lowercased, classified.
pub open spec fn raw_part_meaning(p: Seq<char>) -> HotkeyPart {
    part_meaning(lowercase_of(trim(p)))
}

/// One part's effect: a modifier's flag is or-ed in, a key part sets the key.
pub open spec fn fold_step(acc: (u64, Option<u16>), p: Seq<char>) -> (u64, Option<u16>) {
    match raw_part_meaning(p) {
        HotkeyPart::Modifier(f) => (acc.0 | f, acc.1),
        HotkeyPart::Key(c) => (acc.0, c),
    }
}

/// The modifier flags and the key code after the parts `ps` (each trimmed and
/// lowercased): flags are or-ed together, and every non-modifier part sets the key.
pub open spec fn hotkey_fold(ps: Seq<Seq<char>>) -> (u64, Option<u16>)
    decreases ps.len(),
{
    if ps.len() == 0 {
        (0u64, None)
    } else {
        fold_step(hotkey_fold(ps.drop_last()), ps.last())
    }
}

/// Some part of `ps` is the modifier with flag `f`.
pub open spec fn has_modifier(ps: Seq<Seq<char>>, f: u64) -> bool {
    exists|i: int| 0 <= i < ps.len() && #[trigger] raw_part_meaning(ps[i]) == HotkeyPart::Modifier(f)
}

/// What the last key part of `ps` names, if there is a key part.
pub open spec fn last_key(ps: Seq<Seq<char>>) -> Option<Option<u16>>
    decreases ps.len(),
{
    if ps.len() == 0 {
        None
    } else {
        match raw_part_meaning(ps.last()) {
            HotkeyPart::Key(c) => Some(c),
            HotkeyPart::Modifier(_) => last_key(ps.drop_last()),
        }
    }
}

/// The flags of the four modifiers that are present.
pub open spec fn flag_bits(ctrl: bool, cmd: bool, shift: bool, alt: bool) -> u64 {
    (if ctrl { 0x40000u64 } else { 0u64 }) | (if cmd { 0x100000u64 } else { 0u64 }) | (if shift {
        0x20000u64
    } else {
        0u64
    }) | (if alt { 0x80000u64 } else { 0u64 })
}

pub open spec fn modifier_bits(ps: Seq<Seq<char>>) -> u64 {
    flag_bits(
        has_modifier(ps, 0x40000),
        has_modifier(ps, 0x100000),
        has_modifier(ps, 0x20000),
        has_modifier(ps, 0x80000),
    )
}

proof fn lemma_flag_bits_add(a: bool, b: bool, c: bool, d: bool)
    ensures
        flag_bits(a, b, c, d) | 0x40000u64 == flag_bits(true, b, c, d),
        flag_bits(a, b, c, d) | 0x100000u64 == flag_bits(a, true, c, d),
        flag_bits(a, b, c, d) | 0x20000u64 == flag_bits(a, b, true, d),
        flag_bits(a, b, c, d) | 0x80000u64 == flag_bits(a, b, c, true),
        flag_bits(false, false, false, false) == 0u64,
{
    assert(flag_bits(a, b, c, d) | 0x40000u64 == flag_bits(true, b, c, d)) by (bit_vector);
    assert(flag_bits(a, b, c, d) | 0x100000u64 == flag_bits(a, true, c, d)) by (bit_vector);
    assert(flag_bits(a, b, c, d) | 0x20000u64 == flag_bits(a, b, true, d)) by (bit_vector);
    assert(flag_bits(a, b, c, d) | 0x80000u64 == flag_bits(a, b, c, true)) by (bit_vector);
    assert(flag_bits(false, false, false, false) == 0u64) by (bit_vector);
}

proof fn lemma_modifier_flag_values(t: Seq<char>)
    ensures
        part_meaning(t) matches HotkeyPart::Modifier(f) ==> (f == 0x40000 || f == 0x100000 || f
            == 0x20000 || f == 0x80000),
{
}

/// The hotkey of parts depends only on which modifiers occur and on the last key part.
proof fn lemma_hotkey_fold_shape(ps: Seq<Seq<char>>)
    ensures
        hotkey_fold(ps) == (modifier_bits(ps), match last_key(ps) {
            Some(c) => c,
            None => None,
        }),
    decreases ps.len(),
{
    if ps.len() == 0 {
        lemma_flag_bits_add(false, false, false, false);
    } else {
        let qs = ps.drop_last();
        let x = ps.last();
        lemma_hotkey_fold_shape(qs);
        assert forall|g: u64| has_modifier(ps, g) <==> (has_modifier(qs, g) || raw_part_meaning(x)
            == HotkeyPart::Modifier(g)) by {
            if has_modifier(ps, g) {
                let i = choose|i: int| 0 <= i < ps.len() && #[trigger] raw_part_meaning(ps[i])
                    == HotkeyPart::Modifier(g);
                if i < qs.len() {
                    assert(qs[i] == ps[i]);
                }
            }
            if has_modifier(qs, g) {
                let i = choose|i: int| 0 <= i < qs.len() && #[trigger] raw_part_meaning(qs[i])
                    == HotkeyPart::Modifier(g);
                assert(ps[i] == qs[i]);
            }
            if raw_part_meaning(x) == HotkeyPart::Modifier(g) {
                assert(ps[ps.len() - 1] == x);
            }
        }
        lemma_modifier_flag_values(lowercase_of(trim(x)));
        lemma_flag_bits_add(
            has_modifier(qs, 0x40000),
            has_modifier(qs, 0x100000),
            has_modifier(qs, 0x20000),
            has_modifier(qs, 0x80000),
        );
        match raw_part_meaning(x) {
            HotkeyPart::Modifier(f) => {
                if f == 0x40000 {
                    assert(modifier_bits(ps) == modifier_bits(qs) | f);
                } else if f == 0x100000 {
                    assert(modifier_bits(ps) == modifier_bits(qs) | f);
                } else if f == 0x20000 {
                    assert(modifier_bits(ps) == modifier_bits(qs) | f);
                } else {
                    assert(modifier_bits(ps) == modifier_bits(qs) | f);
                }
            },
            HotkeyPart::Key(c) => {
                assert(modifier_bits(ps) == modifier_bits(qs));
            },
        }
    }
}

/// A part with whitespace around it means what the bare part means.
pub proof fn lemma_part_padding(w1: Seq<char>, p: Seq<char>, w2: Seq<char>)
    requires
        forall|i: int| 0 <= i < w1.len() ==> is_ws(#[trigger] w1[i]),
        forall|i: int| 0 <= i < w2.len() ==> is_ws(#[trigger] w2[i]),
    ensures
        raw_part_meaning(w1 + p + w2) == raw_part_meaning(p),
{
    lemma_trim_padding(w1, p, w2);
}

/// ASCII parts that differ only in letter case mean the same.
pub proof fn lemma_part_case(p: Seq<char>, q: Seq<char>)
    requires
        is_ascii_chars(trim(p)),
        is_ascii_chars(trim(q)),
        ascii_lowercase(trim(p)) == ascii_lowercase(trim(q)),
    ensures
        raw_part_meaning(p) == raw_part_meaning(q),
{
}

/// Two hotkey settings name the same hotkey when their `+`-separated parts have
/// the same modifiers (in any order, any number of times) and the same last key
/// part. With `lemma_part_padding` and `lemma_part_case`, parts padded with
/// whitespace or written in other letter case count as the same part.
pub proof fn lemma_hotkey_setting_invariance(v1: Seq<char>, v2: Seq<char>)
    requires
        forall|f: u64| has_modifier(split_on(v1, '+'), f) <==> has_modifier(split_on(v2, '+'), f),
        last_key(split_on(v1, '+')) == last_key(split_on(v2, '+')),
    ensures
        hotkey_of(v1) == hotkey_of(v2),
{
    let ps = split_on(v1, '+');
    let qs = split_on(v2, '+');
    lemma_hotkey_fold_shape(ps);
    lemma_hotkey_fold_shape(qs);
    assert(modifier_bits(ps) == modifier_bits(qs));
}

/// The hotkey that a setting such as `ctrl+shift+v` names.
pub open spec fn hotkey_of(val: Seq<char>) -> Option<(u64, u16)> {
    let (m, k) = hotkey_fold(split_on(val, '+'));
    match k {
        Some(k) => Some((m, k)),
        None => None,
    }
}

/// Parses a hotkey setting: parts separated by `+`, each a modifier (`ctrl`,
/// `control`, `cmd`, `command`, `shift`, `alt`, `option`, in any case) or a key;
/// the last key part decides the key, and a key is needed.
pub fn parse_hotkey(val: &str) -> (r: Option<(u64, u16)>)
    ensures
        r == hotkey_of(val@),
{
    let v = chars_of(val);
    let pr = split_ranges(v.as_slice(), 0, v.len(), '+');
    assert(v@.subrange(0, v@.len() as int) =~= v@);
    let ghost ps = split_on(v@, '+');
    let mut m: u64 = 0;
    let mut key: Option<u16> = None;
    let mut k: usize = 0;
    while k < pr.len()
        invariant
            v@ == val@,
            ranges_are(v@, pr@, ps),
            k <= pr@.len(),
            (m, key) == hotkey_fold(ps.take(k as int)),
        decreases pr.len() - k,
    {
        let (a, b) = pr[k];
        assert(ps[k as int] == v@.subrange(a as int, b as int));
        assert(ps.take(k + 1).drop_last() =~= ps.take(k as int));
        let (ts, te) = trim_range(v.as_slice(), a, b);
        let part = val.substring_char(ts, te);
        let lowered = to_lowercase(part);
        assert(lowered@ == lowercase_of(v@.subrange(ts as int, te as int)));
        match hotkey_part(lowered.as_str()) {
            HotkeyPart::Modifier(f) => {
                m = m | f;
            },
            HotkeyPart::Key(c) => {
                key = c;
            },
        }
        k = k + 1;
    }
    assert(ps.take(pr@.len() as int) =~= ps);
    match key {
        Some(c) => Some((m, c)),
        None => None,
    }
}

/// The setting name for the paste hotkey on this platform.
pub open spec fn platform_key(macos: bool) -> Seq<char> {
    if macos {
        "paste_hotkey_macos"@
    } else {
        "paste_hotkey_windows"@
    }
}

/// The paste hotkey that the configuration text sets.
pub open spec fn paste_hotkey_of(content: Seq<char>, macos: bool) -> Option<(u64, u16)> {
    let ls = lines(content);
    let val = match find_in(ls, platform_key(macos)) {
        Some(v) => Some(v),
        None => find_in(ls, "paste_hotkey"@),
    };
    match val {
        Some(v) => hotkey_of(v),
        None => None,
    }
}

/// The paste hotkey set in the configuration text `content`: the platform's own
/// setting (`paste_hotkey_macos` or `paste_hotkey_windows`), else `paste_hotkey`.
pub fn paste_hotkey_from_config(content: &str, macos: bool) -> (r: Option<(u64, u16)>)
    ensures
        r == paste_hotkey_of(content@, macos),
{
    let k = if macos {
        "paste_hotkey_macos"
    } else {
        "paste_hotkey_windows"
    };
    let val = match find(content, k) {
        Some(v) => Some(v),
        None => find(content, "paste_hotkey"),
    };
    match val {
        Some(v) => parse_hotkey(v),
        None => None,
    }
}

} // verus!
