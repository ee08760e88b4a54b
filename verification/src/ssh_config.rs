//! Adding a `RemoteForward` for the clipaste port to an OpenSSH client
//! configuration: which block matches the host, where the line goes, and
//! whether it is there already.
use vstd::prelude::*;
use crate::text::{
    chars_of, contains_seq, extend_all, extend_range, extend_str, range_contains, range_eq,
    range_has_char, range_starts_with, starts_with, string_from_chars, trim, trim_range,
};
use crate::split::{line_ranges, lines, ranges_are, word_ranges, words};
use crate::format::{dec, push_decimal};

verus! {

/// Position of the last `@` in `s`.
pub open spec fn last_at(s: Seq<char>) -> Option<int>
    decreases s.len(),
{
    if s.len() == 0 {
        None
    } else if s.last() == '@' {
        Some(s.len() - 1)
    } else {
        last_at(s.drop_last())
    }
}

/// The host name of a `user@host` destination: what follows the last `@`,
/// or the whole destination when it has none.
pub open spec fn hostname_of(s: Seq<char>) -> Seq<char> {
    match last_at(s) {
        Some(k) => s.skip(k + 1),
        None => s,
    }
}

proof fn lemma_last_at(s: Seq<char>)
    ensures
        match last_at(s) {
            Some(k) => 0 <= k < s.len() && s[k] == '@' && forall|j: int|
                k < j < s.len() ==> s[j] != '@',
            None => forall|j: int| 0 <= j < s.len() ==> s[j] != '@',
        },
    decreases s.len(),
{
    if s.len() > 0 {
        lemma_last_at(s.drop_last());
        if s.last() != '@' {
            assert forall|j: int| 0 <= j < s.len() - 1 implies s[j] == s.drop_last()[j] by {}
        }
    }
}

proof fn lemma_last_at_none(s: Seq<char>)
    requires
        forall|j: int| 0 <= j < s.len() ==> s[j] != '@',
    ensures
        last_at(s) is None,
    decreases s.len(),
{
    if s.len() > 0 {
        assert(s.last() == s[s.len() - 1]);
        lemma_last_at_none(s.drop_last());
    }
}

/// The host name of a destination holds no `@`, so taking it again changes nothing.
pub proof fn lemma_hostname_idempotent(s: Seq<char>)
    ensures
        !hostname_of(s).contains('@'),
        hostname_of(hostname_of(s)) == hostname_of(s),
{
    lemma_last_at(s);
    let r = hostname_of(s);
    match last_at(s) {
        Some(k) => {
            assert forall|j: int| 0 <= j < r.len() implies r[j] != '@' by {
                assert(r[j] == s[k + 1 + j]);
            }
        },
        None => {},
    }
    lemma_last_at_none(r);
}

/// The host name is what follows the last `@` of the destination: for a
/// destination `u@h` where `h` holds no `@` it is `h`, whatever `u` holds, and
/// a destination without `@` is its own host name.
pub proof fn lemma_hostname_after_last_at(u: Seq<char>, h: Seq<char>)
    requires
        !h.contains('@'),
    ensures
        hostname_of(u + seq!['@'] + h) == h,
        hostname_of(h) == h,
{
    let s = u + seq!['@'] + h;
    lemma_last_at(s);
    let k = u.len() as int;
    assert(s[k] == '@');
    assert forall|j: int| 0 <= j < h.len() implies h[j] != '@' by {
        if h[j] == '@' {
            assert(h.contains('@'));
        }
    }
    match last_at(s) {
        Some(q) => {
            if q > k {
                assert(s[q] == h[q - k - 1]);
            }
            assert(q == k);
            assert(s.skip(k + 1) =~= h);
        },
        None => {},
    }
    lemma_last_at_none(h);
}

fn hostname_chars(v: &[char]) -> (r: Vec<char>)
    ensures
        r@ == hostname_of(v@),
{
    let mut j = v.len();
    assert(v@.take(v@.len() as int) =~= v@);
    while j > 0 && v[j - 1] != '@'
        invariant
            j <= v@.len(),
            last_at(v@) == last_at(v@.take(j as int)),
        decreases j,
    {
        assert(v@.take(j as int).drop_last() =~= v@.take(j - 1));
        j = j - 1;
    }
    let mut r: Vec<char> = Vec::new();
    if j == 0 {
        assert(v@.take(0) =~= Seq::<char>::empty());
        extend_all(&mut r, v);
    } else {
        assert(v@.take(j as int).last() == '@');
        extend_range(&mut r, v, j, v.len());
        assert(r@ =~= v@.skip(j as int));
    }
    r
}

/// The host name in a `user@host` SSH destination.
pub fn extract_hostname(host: &str) -> (r: String)
    ensures
        r@ == hostname_of(host@),
{
    let v = chars_of(host);
    let h = hostname_chars(v.as_slice());
    string_from_chars(h.as_slice())
}

/// Where the scan of the configuration stands after some lines.
pub struct ScanState {
    /// The line after which the forward will be inserted.
    pub inject_after: Option<int>,
    /// Whether the current `Host` block is one for the host.
    pub in_block: bool,
    /// Whether a matching block already has the forward.
    pub found: bool,
}

pub open spec fn scan_start() -> ScanState {
    ScanState { inject_after: None, in_block: false, found: false }
}

/// Every word holds a `*` or `?`: a wildcard-only `Host` pattern list.
pub open spec fn all_wildcards(ws: Seq<Seq<char>>) -> bool {
    forall|k: int| 0 <= k < ws.len() ==> (#[trigger] ws[k]).contains('*') || ws[k].contains('?')
}

/// The part of a line's step after the `Host` check: `HostName`, then the forward itself.
pub open spec fn scan_rest(st: ScanState, i: int, t: Seq<char>, h: Seq<char>, fwd: Seq<char>) -> ScanState {
    let st2 = if starts_with(t, "HostName "@) || starts_with(t, "HostName\t"@) {
        let inb = st.in_block || trim(t.skip(8)) == h;
        ScanState {
            inject_after: if inb { Some(i) } else { st.inject_after },
            in_block: inb,
            found: st.found,
        }
    } else {
        st
    };
    if st2.in_block && contains_seq(t, fwd) {
        ScanState { found: true, ..st2 }
    } else {
        st2
    }
}

/// The scan's step on line `i`, whose text is `line`.
pub open spec fn scan_step(st: ScanState, i: int, line: Seq<char>, h: Seq<char>, fwd: Seq<char>) -> ScanState {
    let t = trim(line);
    if starts_with(t, "Host "@) {
        let ws = words(trim(t.skip(5)));
        if all_wildcards(ws) {
            ScanState { in_block: false, ..st }
        } else if ws.contains(h) {
            scan_rest(
                ScanState {
                    inject_after: if st.inject_after is None { Some(i) } else { st.inject_after },
                    in_block: true,
                    found: st.found,
                },
                i,
                t,
                h,
                fwd,
            )
        } else {
            scan_rest(ScanState { in_block: false, ..st }, i, t, h, fwd)
        }
    } else {
        scan_rest(st, i, t, h, fwd)
    }
}

/// The scan over lines `ls`.
pub open spec fn scan(ls: Seq<Seq<char>>, h: Seq<char>, fwd: Seq<char>) -> ScanState
    decreases ls.len(),
{
    if ls.len() == 0 {
        scan_start()
    } else {
        scan_step(scan(ls.drop_last(), h, fwd), ls.len() - 1, ls.last(), h, fwd)
    }
}

/// `RemoteForward {port} 127.0.0.1:{port}`.
pub open spec fn forward_text(port: nat) -> Seq<char> {
    "RemoteForward "@ + dec(port) + " 127.0.0.1:"@ + dec(port)
}

/// The lines, each ended by `\n`, with the indented forward after line `inject_after`.
pub open spec fn rebuild(ls: Seq<Seq<char>>, inject_after: Option<int>, fwd: Seq<char>) -> Seq<char>
    decreases ls.len(),
{
    if ls.len() == 0 {
        Seq::<char>::empty()
    } else {
        rebuild(ls.drop_last(), inject_after, fwd) + ls.last() + "\n"@ + if inject_after == Some(
            ls.len() - 1,
        ) {
            "    "@ + fwd + "\n"@
        } else {
            Seq::<char>::empty()
        }
    }
}

/// The block appended when no block matches the host.
pub open spec fn new_block(h: Seq<char>, fwd: Seq<char>) -> Seq<char> {
    "\n# clipaste remote paste\nHost clipaste-"@ + h + "\n    HostName "@ + h + "\n    "@ + fwd
        + "\n"@
}

/// The new configuration text, or `None` when a matching block has the forward already.
pub open spec fn forward_plan(config: Seq<char>, host: Seq<char>, port: nat) -> Option<Seq<char>> {
    let h = hostname_of(host);
    let fwd = forward_text(port);
    let ls = lines(config);
    let st = scan(ls, h, fwd);
    if st.found {
        None
    } else {
        Some(
            rebuild(ls, st.inject_after, fwd) + if st.inject_after is None {
                new_block(h, fwd)
            } else {
                Seq::<char>::empty()
            },
        )
    }
}

/// What to do with the SSH configuration.
pub enum ForwardPlan {
    /// A block for the host has the forward already.
    AlreadyConfigured,
    /// Write this text as the new configuration.
    Write(String),
}

#[derive(Clone, Copy)]
struct Scan {
    inject_after: Option<usize>,
    in_block: bool,
    found: bool,
}

impl Scan {
    spec fn state(&self) -> ScanState {
        ScanState {
            inject_after: match self.inject_after {
                Some(k) => Some(k as int),
                None => None,
            },
            in_block: self.in_block,
            found: self.found,
        }
    }
}

/// Whether every word range holds `*` or `?`.
fn words_all_wild(v: &[char], ws: &Vec<(usize, usize)>, Ghost(pieces): Ghost<Seq<Seq<char>>>) -> (r: bool)
    requires
        ranges_are(v@, ws@, pieces),
    ensures
        r == all_wildcards(pieces),
{
    let mut k: usize = 0;
    while k < ws.len()
        invariant
            ranges_are(v@, ws@, pieces),
            k <= ws@.len(),
            forall|j: int| 0 <= j < k ==> (#[trigger] pieces[j]).contains('*') || pieces[j].contains('?'),
        decreases ws.len() - k,
    {
        let (a, b) = ws[k];
        assert(pieces[k as int] == v@.subrange(a as int, b as int));
        if !range_has_char(v, a, b, '*') && !range_has_char(v, a, b, '?') {
            return false;
        }
        k = k + 1;
    }
    true
}

/// Whether some word range equals `h`.
fn words_any_eq(v: &[char], ws: &Vec<(usize, usize)>, h: &[char], Ghost(pieces): Ghost<Seq<Seq<char>>>) -> (r: bool)
    requires
        ranges_are(v@, ws@, pieces),
    ensures
        r == pieces.contains(h@),
{
    let mut k: usize = 0;
    while k < ws.len()
        invariant
            ranges_are(v@, ws@, pieces),
            k <= ws@.len(),
            forall|j: int| 0 <= j < k ==> pieces[j] != h@,
        decreases ws.len() - k,
    {
        let (a, b) = ws[k];
        assert(pieces[k as int] == v@.subrange(a as int, b as int));
        if range_eq(v, a, b, h) {
            return true;
        }
        k = k + 1;
    }
    false
}

fn rest_step(v: &[char], ts: usize, te: usize, i: usize, st: Scan, h: &[char], fwd: &[char]) -> (r: Scan)
    requires
        ts <= te <= v@.len(),
    ensures
        r.state() == scan_rest(st.state(), i as int, v@.subrange(ts as int, te as int), h@, fwd@),
{
    let ghost t = v@.subrange(ts as int, te as int);
    let kw1 = chars_of("HostName ");
    let kw2 = chars_of("HostName\t");
    let mut st2 = st;
    if range_starts_with(v, ts, te, kw1.as_slice()) || range_starts_with(v, ts, te, kw2.as_slice()) {
        proof {
            reveal_strlit("HostName ");
            reveal_strlit("HostName\t");
        }
        assert(t.skip(8) =~= v@.subrange(ts + 8, te as int));
        let (hs, he) = trim_range(v, ts + 8, te);
        let inb = st.in_block || range_eq(v, hs, he, h);
        st2 = Scan {
            inject_after: if inb { Some(i) } else { st.inject_after },
            in_block: inb,
            found: st.found,
        };
    }
    if st2.in_block && range_contains(v, ts, te, fwd) {
        st2.found = true;
    }
    st2
}

fn line_step(v: &[char], a: usize, b: usize, i: usize, st: Scan, h: &[char], fwd: &[char]) -> (r: Scan)
    requires
        a <= b <= v@.len(),
    ensures
        r.state() == scan_step(st.state(), i as int, v@.subrange(a as int, b as int), h@, fwd@),
{
    let (ts, te) = trim_range(v, a, b);
    let ghost t = v@.subrange(ts as int, te as int);
    let kw = chars_of("Host ");
    if range_starts_with(v, ts, te, kw.as_slice()) {
        proof {
            reveal_strlit("Host ");
        }
        assert(t.skip(5) =~= v@.subrange(ts + 5, te as int));
        let (hs, he) = trim_range(v, ts + 5, te);
        let ws = word_ranges(v, hs, he);
        let ghost pieces = words(v@.subrange(hs as int, he as int));
        if words_all_wild(v, &ws, Ghost(pieces)) {
            return Scan { inject_after: st.inject_after, in_block: false, found: st.found };
        }
        if words_any_eq(v, &ws, h, Ghost(pieces)) {
            let st1 = Scan {
                inject_after: if st.inject_after.is_none() { Some(i) } else { st.inject_after },
                in_block: true,
                found: st.found,
            };
            rest_step(v, ts, te, i, st1, h, fwd)
        } else {
            let st1 = Scan { inject_after: st.inject_after, in_block: false, found: st.found };
            rest_step(v, ts, te, i, st1, h, fwd)
        }
    } else {
        rest_step(v, ts, te, i, st, h, fwd)
    }
}

/// The characters of `RemoteForward {port} 127.0.0.1:{port}`.
fn forward_chars(port: u16) -> (r: Vec<char>)
    ensures
        r@ == forward_text(port as nat),
{
    let mut r: Vec<char> = Vec::new();
    extend_str(&mut r, "RemoteForward ");
    push_decimal(&mut r, port as u64);
    extend_str(&mut r, " 127.0.0.1:");
    push_decimal(&mut r, port as u64);
    r
}

/// Decides how to add `RemoteForward {port} 127.0.0.1:{port}` for `host`
/// (a destination, possibly `user@host`) to the SSH configuration text `config`.
///
/// The forward goes into the first block whose `Host` patterns name the host,
/// after its (last) `HostName` line, or after any `HostName` line that names the
/// host; wildcard-only `Host` blocks are passed over. With no such block, a new
/// `Host clipaste-{host}` block is appended.
pub fn plan_remote_forward(config: &str, host: &str, port: u16) -> (r: ForwardPlan)
    ensures
        match r {
            ForwardPlan::AlreadyConfigured => forward_plan(config@, host@, port as nat) is None,
            ForwardPlan::Write(s) => forward_plan(config@, host@, port as nat) == Some(s@),
        },
{
    let v = chars_of(config);
    let hv = chars_of(host);
    let h = hostname_chars(hv.as_slice());
    let fwd = forward_chars(port);
    let lr = line_ranges(v.as_slice());
    let ghost ls = lines(v@);
    let mut st = Scan { inject_after: None, in_block: false, found: false };
    let mut k: usize = 0;
    while k < lr.len()
        invariant
            ranges_are(v@, lr@, ls),
            k <= lr@.len(),
            st.state() == scan(ls.take(k as int), h@, fwd@),
        decreases lr.len() - k,
    {
        let (a, b) = lr[k];
        assert(ls[k as int] == v@.subrange(a as int, b as int));
        assert(ls.take(k + 1).drop_last() =~= ls.take(k as int));
        st = line_step(v.as_slice(), a, b, k, st, h.as_slice(), fwd.as_slice());
        k = k + 1;
    }
    assert(ls.take(lr@.len() as int) =~= ls);
    if st.found {
        return ForwardPlan::AlreadyConfigured;
    }
    let ghost inj = st.state().inject_after;
    let mut out: Vec<char> = Vec::new();
    let mut k: usize = 0;
    while k < lr.len()
        invariant
            ranges_are(v@, lr@, ls),
            k <= lr@.len(),
            inj == st.state().inject_after,
            out@ == rebuild(ls.take(k as int), inj, fwd@),
        decreases lr.len() - k,
    {
        let (a, b) = lr[k];
        assert(ls[k as int] == v@.subrange(a as int, b as int));
        assert(ls.take(k + 1).drop_last() =~= ls.take(k as int));
        extend_range(&mut out, v.as_slice(), a, b);
        extend_str(&mut out, "\n");
        if st.inject_after == Some(k) {
            extend_str(&mut out, "    ");
            extend_all(&mut out, fwd.as_slice());
            extend_str(&mut out, "\n");
        }
        k = k + 1;
        assert(out@ =~= rebuild(ls.take(k as int), inj, fwd@));
    }
    if st.inject_after.is_none() {
        extend_str(&mut out, "\n# clipaste remote paste\nHost clipaste-");
        extend_all(&mut out, h.as_slice());
        extend_str(&mut out, "\n    HostName ");
        extend_all(&mut out, h.as_slice());
        extend_str(&mut out, "\n    ");
        extend_all(&mut out, fwd.as_slice());
        extend_str(&mut out, "\n");
    }
    let ghost expect = rebuild(ls, inj, fwd@) + if inj is None {
        new_block(h@, fwd@)
    } else {
        Seq::<char>::empty()
    };
    assert(out@ =~= expect);
    ForwardPlan::Write(string_from_chars(out.as_slice()))
}

} // verus!
