//! Decisions of the clipboard listener: which clipboard contents get a file
//! path, which window messages mean a new clipboard change, and the UTF-16
//! text handed to the clipboard.
use vstd::prelude::*;
use crate::text::{chars_of, extend_str, string_from_chars};
use crate::format::{dec, push_decimal};

verus! {

/// `WM_CLIPBOARDUPDATE`.
pub const WM_CLIPBOARDUPDATE: u32 = 0x031D;

/// `WM_DESTROY`.
pub const WM_DESTROY: u32 = 0x0002;

/// The clipboard holds an image (DIB or bitmap) and neither text nor a file drop.
pub fn is_image_only(has_dib: bool, has_bitmap: bool, has_text: bool, has_hdrop: bool) -> (r: bool)
    ensures
        r == ((has_dib || has_bitmap) && !has_text && !has_hdrop),
{
    (has_dib || has_bitmap) && !has_text && !has_hdrop
}

/// The UTF-16 code units of one character.
pub open spec fn utf16_units(c: char) -> Seq<u16> {
    let n = c as u32;
    if n < 0x10000 {
        seq![n as u16]
    } else {
        let m = n - 0x10000;
        seq![(0xD800 + m / 0x400) as u16, (0xDC00 + m % 0x400) as u16]
    }
}

/// The code units of a character read back as that character: one unit equal
/// to it below 0x10000, else a high surrogate and a low surrogate whose ten
/// bits each, above 0x10000, make it up.
pub proof fn lemma_utf16_units_decode(c: char)
    ensures
        ({
            let u = utf16_units(c);
            let n = c as u32 as int;
            if n < 0x10000 {
                u.len() == 1 && u[0] as int == n
            } else {
                &&& u.len() == 2
                &&& 0xD800 <= u[0] < 0xDC00
                &&& 0xDC00 <= u[1] < 0xE000
                &&& (u[0] - 0xD800) * 0x400 + (u[1] - 0xDC00) + 0x10000 == n
            }
        }),
{
    let n = c as u32 as int;
    assert(n <= 0x10FFFF);
}

/// `str::encode_utf16`: the UTF-16 code units of a string.
pub open spec fn encode_utf16(s: Seq<char>) -> Seq<u16>
    decreases s.len(),
{
    if s.len() == 0 {
        Seq::<u16>::empty()
    } else {
        encode_utf16(s.drop_last()) + utf16_units(s.last())
    }
}

/// A string is encoded character by character: the units of `a + b` are the
/// units of `a` followed by those of `b`.
pub proof fn lemma_encode_utf16_append(a: Seq<char>, b: Seq<char>)
    ensures
        encode_utf16(a + b) == encode_utf16(a) + encode_utf16(b),
    decreases b.len(),
{
    if b.len() == 0 {
        assert(a + b =~= a);
        assert(encode_utf16(a) + encode_utf16(b) =~= encode_utf16(a));
    } else {
        lemma_encode_utf16_append(a, b.drop_last());
        assert((a + b).drop_last() =~= a + b.drop_last());
        assert((a + b).last() == b.last());
        assert(encode_utf16(a + b) =~= encode_utf16(a) + encode_utf16(b));
    }
}

/// The UTF-16 code units of `s` followed by a terminating zero, as the
/// wide-string clipboard and window APIs take them.
pub fn encode_utf16_nul(s: &str) -> (r: Vec<u16>)
    ensures
        r@ == encode_utf16(s@).push(0u16),
{
    let v = chars_of(s);
    let mut r: Vec<u16> = Vec::new();
    let mut i: usize = 0;
    while i < v.len()
        invariant
            v@ == s@,
            i <= v@.len(),
            r@ == encode_utf16(v@.take(i as int)),
        decreases v.len() - i,
    {
        let c = v[i];
        let n = c as u32;
        proof {
            vstd::utf8::char_is_scalar(c);
        }
        assert(v@.take(i + 1).drop_last() =~= v@.take(i as int));
        assert(v@.take(i + 1).last() == c);
        if n < 0x10000 {
            r.push(n as u16);
        } else {
            assert(n <= 0x10FFFF);
            let m = n - 0x10000;
            r.push((0xD800 + m / 0x400) as u16);
            r.push((0xDC00 + m % 0x400) as u16);
        }
        i = i + 1;
        assert(r@ =~= encode_utf16(v@.take(i as int)));
    }
    assert(v@.take(v@.len() as int) =~= v@);
    r.push(0);
    r
}

/// Remembers the clipboard sequence number of the last change handled.
pub struct ClipboardWatch {
    pub last_seq: u32,
}

/// A change with sequence number `seq` is new after `last`.
pub open spec fn change_is_new(last: u32, seq: u32) -> bool {
    seq != last
}

impl ClipboardWatch {
    /// A watch that has handled no change yet.
    pub fn new() -> (w: Self)
        ensures
            w.last_seq == 0,
    {
        ClipboardWatch { last_seq: 0 }
    }

    /// Records a clipboard update with sequence number `seq`; true when it is a
    /// change not handled before.
    pub fn is_new_change(&mut self, seq: u32) -> (r: bool)
        ensures
            r == change_is_new(old(self).last_seq, seq),
            final(self).last_seq == seq,
    {
        if seq != self.last_seq {
            self.last_seq = seq;
            true
        } else {
            false
        }
    }
}

/// Each clipboard change is handled once: once `is_new_change(seq)` has run
/// (leaving `last_seq == seq`), the same sequence number is not new again.
pub proof fn lemma_change_handled_once(seq: u32)
    ensures
        !change_is_new(seq, seq),
{
}

/// What the listener window does with a message.
pub enum WindowMessage {
    ClipboardUpdate,
    Destroy,
    Other,
}

/// Classifies a window message.
pub fn window_message(msg: u32) -> (r: WindowMessage)
    ensures
        r == (if msg == WM_CLIPBOARDUPDATE {
            WindowMessage::ClipboardUpdate
        } else if msg == WM_DESTROY {
            WindowMessage::Destroy
        } else {
            WindowMessage::Other
        }),
{
    if msg == WM_CLIPBOARDUPDATE {
        WindowMessage::ClipboardUpdate
    } else if msg == WM_DESTROY {
        WindowMessage::Destroy
    } else {
        WindowMessage::Other
    }
}

/// The log line after a clipboard image was saved: `normalized {file} ({size} bytes)`.
pub fn normalized_message(file_name: &str, size: usize) -> (r: String)
    ensures
        r@ == "normalized "@ + file_name@ + " ("@ + dec(size as nat) + " bytes)"@,
{
    let mut v: Vec<char> = Vec::new();
    extend_str(&mut v, "normalized ");
    extend_str(&mut v, file_name);
    extend_str(&mut v, " (");
    push_decimal(&mut v, size as u64);
    extend_str(&mut v, " bytes)");
    string_from_chars(v.as_slice())
}

} // verus!
