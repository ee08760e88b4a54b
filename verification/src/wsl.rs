//! Finding the Windows host from inside WSL2: the first `nameserver` entry of
//! `/etc/resolv.conf`.
use vstd::prelude::*;
use crate::text::{
    chars_of, is_ws, lemma_trim_class_exact, range_starts_with, starts_with, string_from_range, trim,
    trim_range,
};
use crate::split::{
    lemma_words_single, lemma_words_split_at_ws, line_ranges, lines, ranges_are, word_ranges, words,
};

verus! {

/// The address of the first line that, trimmed, starts with `nameserver` and
/// has at least two words: its second word.
pub open spec fn nameserver_in(ls: Seq<Seq<char>>) -> Option<Seq<char>>
    decreases ls.len(),
{
    if ls.len() == 0 {
        None
    } else {
        let t = trim(ls[0]);
        if starts_with(t, "nameserver"@) && words(t).len() >= 2 {
            Some(words(t)[1])
        } else {
            nameserver_in(ls.drop_first())
        }
    }
}

/// A `nameserver` line that comes first gives its address: the line
/// `nameserver`, a whitespace character and the address `a` (non-empty, with no
/// whitespace), gives `a`, whatever lines follow.
pub proof fn lemma_nameserver_first(c: char, a: Seq<char>, rest: Seq<Seq<char>>)
    requires
        is_ws(c),
        a.len() > 0,
        forall|i: int| 0 <= i < a.len() ==> !is_ws(#[trigger] a[i]),
    ensures
        nameserver_in(seq!["nameserver"@ + seq![c] + a] + rest) == Some(a),
{
    reveal_strlit("nameserver");
    let kw = "nameserver"@;
    let l = kw + seq![c] + a;
    let ls = seq![l] + rest;
    assert(ls[0] == l);
    let e = Seq::<char>::empty();
    assert(l =~= e + l + e);
    assert(l[0] == 'n');
    assert(l.last() == a.last());
    assert(a.last() == a[a.len() - 1]);
    lemma_trim_class_exact(e, l, e, false);
    assert(trim(l) == l);
    assert(l.subrange(0, 10) =~= kw);
    lemma_words_split_at_ws(kw, c, a);
    assert forall|i: int| 0 <= i < kw.len() implies !is_ws(#[trigger] kw[i]) by {}
    lemma_words_single(kw);
    lemma_words_single(a);
    assert(words(l) =~= seq![kw, a]);
}

/// The address of the first `nameserver` entry of a `resolv.conf` text, which
/// under WSL2 is the Windows host.
pub fn nameserver_address(resolv_conf: &str) -> (r: Option<String>)
    ensures
        match r {
            Some(a) => nameserver_in(lines(resolv_conf@)) == Some(a@),
            None => nameserver_in(lines(resolv_conf@)) is None,
        },
{
    let v = chars_of(resolv_conf);
    let kw = chars_of("nameserver");
    let lr = line_ranges(v.as_slice());
    let ghost ls = lines(v@);
    let mut k: usize = 0;
    assert(ls.skip(0) =~= ls);
    while k < lr.len()
        invariant
            v@ == resolv_conf@,
            ls == lines(resolv_conf@),
            kw@ == "nameserver"@,
            ranges_are(v@, lr@, ls),
            k <= lr@.len(),
            nameserver_in(ls) == nameserver_in(ls.skip(k as int)),
        decreases lr.len() - k,
    {
        let (a, b) = lr[k];
        assert(ls[k as int] == v@.subrange(a as int, b as int));
        assert(ls.skip(k as int)[0] == ls[k as int]);
        assert(ls.skip(k as int).drop_first() =~= ls.skip(k + 1));
        let (ts, te) = trim_range(v.as_slice(), a, b);
        if range_starts_with(v.as_slice(), ts, te, kw.as_slice()) {
            let ws = word_ranges(v.as_slice(), ts, te);
            if ws.len() >= 2 {
                let (x, y) = ws[1];
                return Some(string_from_range(v.as_slice(), x, y));
            }
        }
        k = k + 1;
    }
    None
}

} // verus!
