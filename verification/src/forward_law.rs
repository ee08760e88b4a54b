//! What `plan_remote_forward` promises across runs: the configuration it
//! proposes keeps every existing line, and planning again on it finds the
//! forward already configured.
use vstd::prelude::*;
use crate::text::{contains_at, contains_seq, is_ws, lemma_trim_start_of_ws_prefix, starts_with, trim};
use crate::split::{lemma_split_nonempty, lines, split_on, strip_cr, words};
use crate::format::dec;
use crate::ssh_config::{
    all_wildcards, forward_plan, forward_text, hostname_of, new_block, rebuild, scan, scan_step,
    ScanState,
};

verus! {

/// The lines, each followed by `\n`.
pub open spec fn join_lines(xs: Seq<Seq<char>>) -> Seq<char>
    decreases xs.len(),
{
    if xs.len() == 0 {
        Seq::<char>::empty()
    } else {
        join_lines(xs.drop_last()) + xs.last() + "\n"@
    }
}

pub open spec fn no_newline(s: Seq<char>) -> bool {
    !s.contains('\n')
}

proof fn lemma_newline_lit()
    ensures
        "\n"@ == seq!['\n'],
{
    reveal_strlit("\n");
}

proof fn lemma_join_append(xs: Seq<Seq<char>>, ys: Seq<Seq<char>>)
    ensures
        join_lines(xs + ys) == join_lines(xs) + join_lines(ys),
    decreases ys.len(),
{
    if ys.len() == 0 {
        assert(xs + ys =~= xs);
        assert(join_lines(xs) + join_lines(ys) =~= join_lines(xs));
    } else {
        lemma_join_append(xs, ys.drop_last());
        assert((xs + ys).drop_last() =~= xs + ys.drop_last());
        assert((xs + ys).last() == ys.last());
        assert(join_lines(xs + ys) =~= join_lines(xs) + join_lines(ys));
    }
}

proof fn lemma_join_push(xs: Seq<Seq<char>>, x: Seq<char>)
    ensures
        join_lines(xs.push(x)) == join_lines(xs) + x + "\n"@,
{
    assert(xs.push(x).drop_last() =~= xs);
}

proof fn lemma_rebuild_none(xs: Seq<Seq<char>>, fwd: Seq<char>)
    ensures
        rebuild(xs, None, fwd) == join_lines(xs),
    decreases xs.len(),
{
    if xs.len() > 0 {
        lemma_rebuild_none(xs.drop_last(), fwd);
        assert(rebuild(xs, None, fwd) =~= join_lines(xs));
    }
}

proof fn lemma_rebuild_before(ls: Seq<Seq<char>>, k: int, j: int, fwd: Seq<char>)
    requires
        0 <= k,
        0 <= j <= k + 1,
        j <= ls.len(),
    ensures
        rebuild(ls.take(j), Some(k), fwd) == join_lines(ls.take(j)) + if j == k + 1 {
            "    "@ + fwd + "\n"@
        } else {
            Seq::<char>::empty()
        },
    decreases j,
{
    if j > 0 {
        lemma_rebuild_before(ls, k, j - 1, fwd);
        assert(ls.take(j).drop_last() =~= ls.take(j - 1));
        if j == k + 1 {
            assert(rebuild(ls.take(j), Some(k), fwd) =~= join_lines(ls.take(j)) + "    "@ + fwd
                + "\n"@);
        } else {
            assert(rebuild(ls.take(j), Some(k), fwd) =~= join_lines(ls.take(j)));
        }
    } else {
        assert(ls.take(0) =~= Seq::<Seq<char>>::empty());
    }
}

proof fn lemma_rebuild_after(ls: Seq<Seq<char>>, k: int, j: int, fwd: Seq<char>)
    requires
        0 <= k,
        k + 1 <= j <= ls.len(),
    ensures
        rebuild(ls.take(j), Some(k), fwd) == rebuild(ls.take(k + 1), Some(k), fwd) + join_lines(
            ls.subrange(k + 1, j),
        ),
    decreases j,
{
    if j == k + 1 {
        assert(ls.subrange(k + 1, j) =~= Seq::<Seq<char>>::empty());
        assert(rebuild(ls.take(k + 1), Some(k), fwd) + join_lines(ls.subrange(k + 1, j))
            =~= rebuild(ls.take(k + 1), Some(k), fwd));
    } else {
        lemma_rebuild_after(ls, k, j - 1, fwd);
        assert(ls.take(j).drop_last() =~= ls.take(j - 1));
        assert(ls.subrange(k + 1, j).drop_last() =~= ls.subrange(k + 1, j - 1));
        assert(rebuild(ls.take(j), Some(k), fwd) =~= rebuild(ls.take(k + 1), Some(k), fwd)
            + join_lines(ls.subrange(k + 1, j)));
    }
}

/// With the forward line put in as a line of its own, the rebuilt text is a plain join.
proof fn lemma_rebuild_some(ls: Seq<Seq<char>>, k: int, fwd: Seq<char>)
    requires
        0 <= k < ls.len(),
    ensures
        rebuild(ls, Some(k), fwd) == join_lines(
            ls.take(k + 1) + seq!["    "@ + fwd] + ls.skip(k + 1),
        ),
{
    lemma_rebuild_after(ls, k, ls.len() as int, fwd);
    lemma_rebuild_before(ls, k, k + 1, fwd);
    assert(ls.take(ls.len() as int) =~= ls);
    assert(ls.subrange(k + 1, ls.len() as int) =~= ls.skip(k + 1));
    lemma_join_append(ls.take(k + 1), seq!["    "@ + fwd]);
    lemma_join_append(ls.take(k + 1) + seq!["    "@ + fwd], ls.skip(k + 1));
    lemma_join_push(Seq::<Seq<char>>::empty(), "    "@ + fwd);
    assert(Seq::<Seq<char>>::empty().push("    "@ + fwd) =~= seq!["    "@ + fwd]);
    assert(join_lines(Seq::<Seq<char>>::empty()) == Seq::<char>::empty());
    assert(join_lines(seq!["    "@ + fwd]) =~= "    "@ + fwd + "\n"@);
}

proof fn lemma_split_no_sep(s: Seq<char>, t: Seq<char>, c: char)
    requires
        !t.contains(c),
    ensures
        split_on(s + t, c) == split_on(s, c).update(
            split_on(s, c).len() - 1,
            split_on(s, c).last() + t,
        ),
    decreases t.len(),
{
    lemma_split_nonempty(s, c);
    if t.len() == 0 {
        assert(s + t =~= s);
        assert(split_on(s, c).last() + t =~= split_on(s, c).last());
        assert(split_on(s, c).update(split_on(s, c).len() - 1, split_on(s, c).last())
            =~= split_on(s, c));
    } else {
        let t2 = t.drop_last();
        assert(!t2.contains(c)) by {
            if t2.contains(c) {
                let j = choose|j: int| 0 <= j < t2.len() && t2[j] == c;
                assert(t[j] == c);
            }
        }
        lemma_split_no_sep(s, t2, c);
        assert((s + t).drop_last() =~= s + t2);
        assert((s + t).last() == t.last());
        assert(t.last() != c) by {
            assert(t[t.len() - 1] == t.last());
        }
        lemma_split_nonempty(s + t2, c);
        assert((split_on(s, c).last() + t2).push(t.last()) =~= split_on(s, c).last() + t);
        assert(split_on(s + t, c) =~= split_on(s, c).update(
            split_on(s, c).len() - 1,
            split_on(s, c).last() + t,
        ));
    }
}


/// Splitting joined lines on `\n` gives them back, with an empty last piece.
proof fn lemma_split_join(xs: Seq<Seq<char>>)
    requires
        forall|i: int| 0 <= i < xs.len() ==> no_newline(#[trigger] xs[i]),
    ensures
        split_on(join_lines(xs), '\n') == xs.push(Seq::<char>::empty()),
    decreases xs.len(),
{
    lemma_newline_lit();
    if xs.len() == 0 {
        assert(split_on(Seq::<char>::empty(), '\n') =~= seq![Seq::<char>::empty()]);
        assert(xs.push(Seq::<char>::empty()) =~= seq![Seq::<char>::empty()]);
    } else {
        let xs2 = xs.drop_last();
        assert forall|i: int| 0 <= i < xs2.len() implies no_newline(#[trigger] xs2[i]) by {
            assert(xs2[i] == xs[i]);
        }
        lemma_split_join(xs2);
        let x = xs.last();
        assert(no_newline(xs[xs.len() - 1]));
        lemma_split_no_sep(join_lines(xs2), x, '\n');
        let s = join_lines(xs2) + x;
        assert(join_lines(xs) =~= s.push('\n'));
        assert(s.push('\n').drop_last() =~= s);
        assert(split_on(s, '\n') =~= xs);
        assert(split_on(join_lines(xs), '\n') =~= xs.push(Seq::<char>::empty()));
    }
}

/// Splitting joined lines followed by more text gives the lines, then the pieces of that text.
proof fn lemma_split_join_then(xs: Seq<Seq<char>>, t: Seq<char>)
    requires
        forall|i: int| 0 <= i < xs.len() ==> no_newline(#[trigger] xs[i]),
    ensures
        split_on(join_lines(xs) + t, '\n') == xs + split_on(t, '\n'),
    decreases t.len(),
{
    lemma_split_nonempty(t, '\n');
    if t.len() == 0 {
        lemma_split_join(xs);
        assert(join_lines(xs) + t =~= join_lines(xs));
        assert(split_on(t, '\n') =~= seq![Seq::<char>::empty()]);
        assert(xs.push(Seq::<char>::empty()) =~= xs + seq![Seq::<char>::empty()]);
    } else {
        let t2 = t.drop_last();
        lemma_split_join_then(xs, t2);
        lemma_split_nonempty(t2, '\n');
        let j = join_lines(xs);
        assert((j + t).drop_last() =~= j + t2);
        assert((j + t).last() == t.last());
        let p = split_on(t2, '\n');
        if t.last() == '\n' {
            assert((xs + p).push(Seq::<char>::empty()) =~= xs + p.push(Seq::<char>::empty()));
        } else {
            assert((xs + p).update((xs + p).len() - 1, (xs + p).last().push(t.last())) =~= xs
                + p.update(p.len() - 1, p.last().push(t.last())));
        }
    }
}

/// The lines of joined lines and more text: the lines (less a trailing `\r`), then the text's lines.
proof fn lemma_lines_join_then(xs: Seq<Seq<char>>, t: Seq<char>)
    requires
        forall|i: int| 0 <= i < xs.len() ==> no_newline(#[trigger] xs[i]),
    ensures
        lines(join_lines(xs) + t) == xs.map_values(|l: Seq<char>| strip_cr(l)) + lines(t),
{
    lemma_split_join_then(xs, t);
    lemma_split_nonempty(t, '\n');
    let p = split_on(t, '\n');
    assert((xs + p).drop_last() =~= xs + p.drop_last());
    assert((xs + p).last() == p.last());
    assert((xs + p.drop_last()).map_values(|l: Seq<char>| strip_cr(l)) =~= xs.map_values(
        |l: Seq<char>| strip_cr(l),
    ) + p.drop_last().map_values(|l: Seq<char>| strip_cr(l)));
    if p.last().len() == 0 {
        assert(lines(join_lines(xs) + t) =~= xs.map_values(|l: Seq<char>| strip_cr(l)) + lines(t));
    } else {
        assert(lines(join_lines(xs) + t) =~= xs.map_values(|l: Seq<char>| strip_cr(l)) + lines(t));
    }
}

/// Lines written out, each followed by `\n`, read back by `lines` as the same
/// lines, each without one trailing carriage return.
pub proof fn lemma_lines_join(xs: Seq<Seq<char>>)
    requires
        forall|i: int| 0 <= i < xs.len() ==> no_newline(#[trigger] xs[i]),
    ensures
        lines(join_lines(xs)) == xs.map_values(|l: Seq<char>| strip_cr(l)),
{
    lemma_split_join(xs);
    assert(xs.push(Seq::<char>::empty()).drop_last() =~= xs);
    assert(lines(join_lines(xs)) =~= xs.map_values(|l: Seq<char>| strip_cr(l)));
}

proof fn lemma_split_pieces_no_sep(s: Seq<char>, c: char)
    ensures
        forall|i: int|
            0 <= i < split_on(s, c).len() ==> !(#[trigger] split_on(s, c)[i]).contains(c),
    decreases s.len(),
{
    lemma_split_nonempty(s, c);
    if s.len() > 0 {
        let p = split_on(s.drop_last(), c);
        lemma_split_pieces_no_sep(s.drop_last(), c);
        lemma_split_nonempty(s.drop_last(), c);
        if s.last() != c {
            assert forall|i: int| 0 <= i < split_on(s, c).len() implies !(#[trigger] split_on(
                s,
                c,
            )[i]).contains(c) by {
                if i == p.len() - 1 {
                    let q = p.last().push(s.last());
                    if q.contains(c) {
                        let j = choose|j: int| 0 <= j < q.len() && q[j] == c;
                        if j < p.last().len() {
                            assert(p[p.len() - 1][j] == c);
                            assert(p[p.len() - 1].contains(c));
                        }
                    }
                } else {
                    assert(split_on(s, c)[i] == p[i]);
                }
            }
        } else {
            assert forall|i: int| 0 <= i < split_on(s, c).len() implies !(#[trigger] split_on(
                s,
                c,
            )[i]).contains(c) by {
                if i < p.len() {
                    assert(split_on(s, c)[i] == p[i]);
                }
            }
        }
    }
}

proof fn lemma_lines_no_newline(s: Seq<char>)
    ensures
        forall|i: int| 0 <= i < lines(s).len() ==> no_newline(#[trigger] lines(s)[i]),
{
    let p = split_on(s, '\n');
    lemma_split_pieces_no_sep(s, '\n');
    lemma_split_nonempty(s, '\n');
    assert forall|i: int| 0 <= i < lines(s).len() implies no_newline(#[trigger] lines(s)[i]) by {
        assert(!p[i].contains('\n'));
        if i < p.len() - 1 {
            let l = p[i];
            if l.len() > 0 && l.last() == '\r' {
                if l.drop_last().contains('\n') {
                    let j = choose|j: int| 0 <= j < l.drop_last().len() && l.drop_last()[j] == '\n';
                    assert(l[j] == '\n');
                }
            }
        }
    }
}

/// Trimming text with whitespace before it and none at its ends gives the text.
proof fn lemma_trim_padded(p: Seq<char>, s: Seq<char>)
    requires
        forall|i: int| 0 <= i < p.len() ==> is_ws(#[trigger] p[i]),
        s.len() > 0,
        !is_ws(s[0]),
        !is_ws(s.last()),
    ensures
        trim(p + s) == s,
{
    lemma_trim_start_of_ws_prefix(p, s);
}

/// A trailing `\r` is whitespace: trimming makes no difference.
proof fn lemma_trim_strip_cr(l: Seq<char>)
    ensures
        trim(strip_cr(l)) == trim(l),
{
    if l.len() > 0 && l.last() == '\r' {
        lemma_trim_drop_ws_last(l);
    }
}

proof fn lemma_trim_drop_ws_last(s: Seq<char>)
    requires
        s.len() > 0,
        is_ws(s.last()),
    ensures
        trim(s) == trim(s.drop_last()),
    decreases s.len(),
{
    if is_ws(s[0]) {
        if s.len() == 1 {
            assert(s.drop_first() =~= Seq::<char>::empty());
            assert(s.drop_last() =~= Seq::<char>::empty());
        } else {
            let d = s.drop_first();
            assert(d.last() == s.last());
            lemma_trim_drop_ws_last(d);
            assert(s.drop_last()[0] == s[0]);
            assert(s.drop_last().drop_first() =~= d.drop_last());
        }
    } else {
        assert(s.len() > 1);
        assert(s.drop_last()[0] == s[0]);
    }
}

proof fn lemma_scan_strip_cr(xs: Seq<Seq<char>>, h: Seq<char>, fwd: Seq<char>)
    ensures
        scan(xs.map_values(|l: Seq<char>| strip_cr(l)), h, fwd) == scan(xs, h, fwd),
    decreases xs.len(),
{
    let ys = xs.map_values(|l: Seq<char>| strip_cr(l));
    if xs.len() > 0 {
        assert(ys.drop_last() =~= xs.drop_last().map_values(|l: Seq<char>| strip_cr(l)));
        lemma_scan_strip_cr(xs.drop_last(), h, fwd);
        lemma_trim_strip_cr(xs.last());
        assert(ys.last() == strip_cr(xs.last()));
    }
}

proof fn lemma_step_keeps_found(st: ScanState, i: int, l: Seq<char>, h: Seq<char>, fwd: Seq<char>)
    requires
        st.found,
    ensures
        scan_step(st, i, l, h, fwd).found,
{
}

/// Once the forward is found, it stays found.
proof fn lemma_scan_found_append(xs: Seq<Seq<char>>, ys: Seq<Seq<char>>, h: Seq<char>, fwd: Seq<char>)
    requires
        scan(xs, h, fwd).found,
    ensures
        scan(xs + ys, h, fwd).found,
    decreases ys.len(),
{
    if ys.len() == 0 {
        assert(xs + ys =~= xs);
    } else {
        lemma_scan_found_append(xs, ys.drop_last(), h, fwd);
        assert((xs + ys).drop_last() =~= xs + ys.drop_last());
        lemma_step_keeps_found(
            scan(xs + ys.drop_last(), h, fwd),
            (xs + ys).len() - 1,
            (xs + ys).last(),
            h,
            fwd,
        );
    }
}

/// The line after which the forward goes was in a matching block.
proof fn lemma_scan_inject(xs: Seq<Seq<char>>, h: Seq<char>, fwd: Seq<char>)
    ensures
        scan(xs, h, fwd).inject_after matches Some(k) ==> {
            &&& 0 <= k < xs.len()
            &&& scan(xs.take(k + 1), h, fwd).in_block
        },
    decreases xs.len(),
{
    if xs.len() > 0 {
        let xs2 = xs.drop_last();
        lemma_scan_inject(xs2, h, fwd);
        let n = xs.len() - 1;
        if let Some(k) = scan(xs, h, fwd).inject_after {
            if k < n {
                assert(scan(xs2, h, fwd).inject_after == Some(k));
                assert(xs2.take(k + 1) =~= xs.take(k + 1));
            } else {
                assert(xs.take(k + 1) =~= xs);
            }
        }
    }
}

proof fn lemma_dec_digits(n: nat)
    ensures
        dec(n).len() > 0,
        forall|i: int| 0 <= i < dec(n).len() ==> '0' <= #[trigger] dec(n)[i] <= '9',
    decreases n,
{
    if n >= 10 {
        lemma_dec_digits(n / 10);
    }
}

/// The forward text starts with `R`, ends with a digit and has no line break.
proof fn lemma_forward_text(port: nat)
    ensures
        forward_text(port).len() > 0,
        forward_text(port)[0] == 'R',
        '0' <= forward_text(port).last() <= '9',
        no_newline(forward_text(port)),
        !is_ws(forward_text(port)[0]),
        !is_ws(forward_text(port).last()),
{
    reveal_strlit("RemoteForward ");
    reveal_strlit(" 127.0.0.1:");
    lemma_dec_digits(port);
    let f = forward_text(port);
    let d = dec(port);
    assert(f.last() == d.last());
    assert(d.last() == d[d.len() - 1]);
    assert forall|i: int| 0 <= i < f.len() implies f[i] != '\n' by {
        if i >= 14 && i < 14 + d.len() {
            assert(f[i] == d[i - 14]);
        } else if i >= 14 + d.len() + 11 {
            assert(f[i] == d[i - 14 - d.len() - 11]);
        }
    }
}

proof fn lemma_fwd_line(fwd: Seq<char>, h: Seq<char>, st: ScanState, i: int)
    requires
        fwd.len() > 0,
        fwd[0] == 'R',
        !is_ws(fwd.last()),
        st.in_block,
    ensures
        scan_step(st, i, "    "@ + fwd, h, fwd).found,
{
    reveal_strlit("    ");
    reveal_strlit("Host ");
    reveal_strlit("HostName ");
    reveal_strlit("HostName\t");
    let p = "    "@;
    lemma_trim_padded(p, fwd);
    let t = trim(p + fwd);
    assert(t == fwd);
    assert(!starts_with(t, "Host "@)) by {
        if starts_with(t, "Host "@) {
            assert(t.subrange(0, 5)[0] == t[0]);
        }
    }
    assert(!starts_with(t, "HostName "@)) by {
        if starts_with(t, "HostName "@) {
            assert(t.subrange(0, 9)[0] == t[0]);
        }
    }
    assert(!starts_with(t, "HostName\t"@)) by {
        if starts_with(t, "HostName\t"@) {
            assert(t.subrange(0, 9)[0] == t[0]);
        }
    }
    assert(contains_at(fwd, fwd, 0)) by {
        assert(fwd.subrange(0, fwd.len() as int) =~= fwd);
    }
}

proof fn lemma_hostname_line(fwd: Seq<char>, h: Seq<char>, st: ScanState, i: int)
    requires
        h.len() > 0,
        !is_ws(h[0]),
        !is_ws(h.last()),
    ensures
        scan_step(st, i, "    HostName "@ + h, h, fwd).in_block,
{
    reveal_strlit("    HostName ");
    reveal_strlit("    ");
    reveal_strlit("HostName ");
    reveal_strlit("Host ");
    let l = "    HostName "@ + h;
    let p = "    "@;
    let q = "HostName "@ + h;
    assert(l =~= p + q);
    lemma_trim_padded(p, q);
    let t = trim(l);
    assert(t == q);
    assert(!starts_with(t, "Host "@)) by {
        if starts_with(t, "Host "@) {
            assert(t.subrange(0, 5)[4] == t[4]);
        }
    }
    assert(starts_with(t, "HostName "@)) by {
        assert(t.subrange(0, 9) =~= "HostName "@);
    }
    assert(t.skip(8) =~= seq![' '] + h);
    lemma_trim_padded(seq![' '], h);
}

/// The lines with the indented forward put in after line `k`.
pub open spec fn with_forward_line(ls: Seq<Seq<char>>, k: int, fwd: Seq<char>) -> Seq<Seq<char>> {
    ls.take(k + 1) + seq!["    "@ + fwd] + ls.skip(k + 1)
}

/// The configuration that `plan_remote_forward` proposes keeps every existing
/// line, in order (less a carriage return before its line break): either the
/// forward is one new line after line `k` of the old text, or the new block
/// follows all old lines.
pub proof fn lemma_forward_keeps_lines(config: Seq<char>, host: Seq<char>, port: nat)
    requires
        forward_plan(config, host, port) is Some,
    ensures
        ({
            let fwd = forward_text(port);
            let ls = lines(config);
            let new = forward_plan(config, host, port)->0;
            match scan(ls, hostname_of(host), fwd).inject_after {
                Some(k) => 0 <= k < ls.len() && lines(new) == with_forward_line(ls, k, fwd).map_values(
                    |l: Seq<char>| strip_cr(l),
                ),
                None => lines(new) == ls.map_values(|l: Seq<char>| strip_cr(l)) + lines(
                    new_block(hostname_of(host), fwd),
                ),
            }
        }),
{
    let h = hostname_of(host);
    let fwd = forward_text(port);
    let ls = lines(config);
    let st = scan(ls, h, fwd);
    let new = forward_plan(config, host, port)->0;
    lemma_forward_text(port);
    lemma_lines_no_newline(config);
    reveal_strlit("    ");
    match st.inject_after {
        Some(k) => {
            lemma_scan_inject(ls, h, fwd);
            lemma_rebuild_some(ls, k, fwd);
            let fl = "    "@ + fwd;
            let ls2 = with_forward_line(ls, k, fwd);
            assert(new =~= join_lines(ls2));
            assert forall|i: int| 0 <= i < ls2.len() implies no_newline(#[trigger] ls2[i]) by {
                if i <= k {
                    assert(ls2[i] == ls[i]);
                } else if i > k + 1 {
                    assert(ls2[i] == ls[i - 1]);
                } else {
                    assert(ls2[i] == fl);
                    if fl.contains('\n') {
                        let j = choose|j: int| 0 <= j < fl.len() && fl[j] == '\n';
                        assert(fwd[j - 4] == '\n');
                    }
                }
            }
            lemma_lines_join(ls2);
        },
        None => {
            lemma_rebuild_none(ls, fwd);
            lemma_lines_join_then(ls, new_block(h, fwd));
        },
    }
}

/// Writing the configuration that `plan_remote_forward` proposes and planning
/// again for the same destination and port finds the forward already configured,
/// whenever the host name is non-empty, holds no line break, and neither begins
/// nor ends with whitespace.
pub proof fn lemma_forward_idempotent(config: Seq<char>, host: Seq<char>, port: nat)
    requires
        hostname_of(host).len() > 0,
        no_newline(hostname_of(host)),
        !is_ws(hostname_of(host)[0]),
        !is_ws(hostname_of(host).last()),
        forward_plan(config, host, port) is Some,
    ensures
        forward_plan(forward_plan(config, host, port)->0, host, port) is None,
{
    let h = hostname_of(host);
    let fwd = forward_text(port);
    let ls = lines(config);
    let st = scan(ls, h, fwd);
    let new = forward_plan(config, host, port)->0;
    lemma_forward_text(port);
    lemma_lines_no_newline(config);
    reveal_strlit("    ");
    match st.inject_after {
        Some(k) => {
            lemma_forward_keeps_lines(config, host, port);
            lemma_scan_inject(ls, h, fwd);
            let fl = "    "@ + fwd;
            let ls2 = with_forward_line(ls, k, fwd);
            lemma_scan_strip_cr(ls2, h, fwd);
            let pre = ls2.take(k + 2);
            assert(pre.drop_last() =~= ls.take(k + 1));
            assert(pre.last() == fl);
            lemma_fwd_line(fwd, h, scan(ls.take(k + 1), h, fwd), k + 1);
            assert(scan(pre, h, fwd).found);
            assert(ls2 =~= pre + ls.skip(k + 1));
            lemma_scan_found_append(pre, ls.skip(k + 1), h, fwd);
        },
        None => {
            reveal_strlit("\n# clipaste remote paste\nHost clipaste-");
            reveal_strlit("\n    HostName ");
            reveal_strlit("\n    ");
            reveal_strlit("\n");
            reveal_strlit("# clipaste remote paste");
            reveal_strlit("Host clipaste-");
            reveal_strlit("    HostName ");
            let e1 = "# clipaste remote paste"@;
            let e2 = "Host clipaste-"@ + h;
            let e3 = "    HostName "@ + h;
            let e4 = "    "@ + fwd;
            let tail = seq![Seq::<char>::empty(), e1, e2, e3, e4];
            let ls2 = ls + tail;
            lemma_rebuild_none(ls, fwd);
            lemma_join_append(ls, tail);
            let z = Seq::<Seq<char>>::empty();
            lemma_join_push(z, Seq::<char>::empty());
            lemma_join_push(z.push(Seq::<char>::empty()), e1);
            lemma_join_push(z.push(Seq::<char>::empty()).push(e1), e2);
            lemma_join_push(z.push(Seq::<char>::empty()).push(e1).push(e2), e3);
            lemma_join_push(z.push(Seq::<char>::empty()).push(e1).push(e2).push(e3), e4);
            assert(z.push(Seq::<char>::empty()).push(e1).push(e2).push(e3).push(e4) =~= tail);
            assert(join_lines(z) == Seq::<char>::empty());
            assert(join_lines(tail) =~= new_block(h, fwd));
            assert(new =~= join_lines(ls2));
            assert forall|i: int| 0 <= i < ls2.len() implies no_newline(#[trigger] ls2[i]) by {
                if i < ls.len() {
                    assert(ls2[i] == ls[i]);
                } else {
                    let l = ls2[i];
                    if l.contains('\n') {
                        let j = choose|j: int| 0 <= j < l.len() && l[j] == '\n';
                        if i == ls.len() + 2 {
                            assert(h[j - 14] == '\n');
                        } else if i == ls.len() + 3 {
                            assert(h[j - 13] == '\n');
                        } else if i == ls.len() + 4 {
                            assert(fwd[j - 4] == '\n');
                        }
                    }
                }
            }
            lemma_lines_join(ls2);
            lemma_scan_strip_cr(ls2, h, fwd);
            let pre4 = ls2.drop_last();
            assert(ls2.last() == e4);
            assert(pre4.last() == e3);
            lemma_hostname_line(fwd, h, scan(pre4.drop_last(), h, fwd), pre4.len() - 1);
            lemma_fwd_line(fwd, h, scan(pre4, h, fwd), ls2.len() - 1);
        },
    }
}

/// A `Host` line (trimmed) whose patterns name the host `h` and are not all wildcards.
pub open spec fn host_line_names(t: Seq<char>, h: Seq<char>) -> bool {
    &&& starts_with(t, "Host "@)
    &&& words(trim(t.skip(5))).contains(h)
    &&& !all_wildcards(words(trim(t.skip(5))))
}

/// A `HostName` line (trimmed) whose value is the host `h`.
pub open spec fn hostname_line_names(t: Seq<char>, h: Seq<char>) -> bool {
    &&& (starts_with(t, "HostName "@) || starts_with(t, "HostName\t"@))
    &&& trim(t.skip(8)) == h
}

/// The line names the host, by its `Host` patterns or by its `HostName`.
pub open spec fn names_host(l: Seq<char>, h: Seq<char>) -> bool {
    host_line_names(trim(l), h) || hostname_line_names(trim(l), h)
}

/// The line starts a `Host` block that is not the host's.
pub open spec fn ends_block(l: Seq<char>, h: Seq<char>) -> bool {
    starts_with(trim(l), "Host "@) && !host_line_names(trim(l), h)
}

/// Since line `j`, which names the host, no other `Host` block has begun up to line `e` (exclusive).
pub open spec fn block_open_since(ls: Seq<Seq<char>>, h: Seq<char>, j: int, e: int) -> bool {
    &&& 0 <= j < e <= ls.len()
    &&& names_host(ls[j], h)
    &&& forall|m: int| j < m < e ==> !ends_block(#[trigger] ls[m], h)
}

proof fn lemma_host_not_hostname(t: Seq<char>)
    requires
        starts_with(t, "Host "@),
    ensures
        !starts_with(t, "HostName "@),
        !starts_with(t, "HostName\t"@),
{
    reveal_strlit("Host ");
    reveal_strlit("HostName ");
    reveal_strlit("HostName\t");
    assert(t.subrange(0, 5)[4] == t[4]);
    if starts_with(t, "HostName "@) {
        assert(t.subrange(0, 9)[4] == t[4]);
    }
    if starts_with(t, "HostName\t"@) {
        assert(t.subrange(0, 9)[4] == t[4]);
    }
}

/// The scan is inside a matching block only when some earlier line named the
/// host and no other `Host` block has begun since.
proof fn lemma_scan_in_block(ls: Seq<Seq<char>>, h: Seq<char>, fwd: Seq<char>)
    ensures
        scan(ls, h, fwd).in_block ==> exists|j: int| block_open_since(ls, h, j, ls.len() as int),
    decreases ls.len(),
{
    if ls.len() > 0 {
        let n = ls.len() - 1;
        let ls2 = ls.drop_last();
        let x = ls.last();
        let t = trim(x);
        lemma_scan_in_block(ls2, h, fwd);
        assert(ls[n] == x);
        if starts_with(t, "Host "@) {
            lemma_host_not_hostname(t);
            if scan(ls, h, fwd).in_block {
                assert(block_open_since(ls, h, n, ls.len() as int));
            }
        } else if scan(ls, h, fwd).in_block {
            if hostname_line_names(t, h) {
                assert(block_open_since(ls, h, n, ls.len() as int));
            } else {
                assert(scan(ls2, h, fwd).in_block);
                let j = choose|j: int| block_open_since(ls2, h, j, ls2.len() as int);
                assert(ls[j] == ls2[j]);
                assert forall|m: int| j < m < ls.len() implies !ends_block(#[trigger] ls[m], h) by {
                    if m < n {
                        assert(ls[m] == ls2[m]);
                    }
                }
                assert(block_open_since(ls, h, j, ls.len() as int));
            }
        }
    }
}

proof fn lemma_scan_found(ls: Seq<Seq<char>>, h: Seq<char>, fwd: Seq<char>)
    ensures
        scan(ls, h, fwd).found ==> exists|m: int|
            0 <= m < ls.len() && contains_seq(trim(#[trigger] ls[m]), fwd) && scan(
                ls.take(m + 1),
                h,
                fwd,
            ).in_block,
    decreases ls.len(),
{
    if ls.len() > 0 {
        let n = ls.len() - 1;
        let ls2 = ls.drop_last();
        lemma_scan_found(ls2, h, fwd);
        if scan(ls, h, fwd).found {
            if scan(ls2, h, fwd).found {
                let m = choose|m: int|
                    0 <= m < ls2.len() && contains_seq(trim(#[trigger] ls2[m]), fwd) && scan(
                        ls2.take(m + 1),
                        h,
                        fwd,
                    ).in_block;
                assert(ls2.take(m + 1) =~= ls.take(m + 1));
                assert(ls[m] == ls2[m]);
            } else {
                assert(ls.take(n + 1) =~= ls);
                assert(ls[n] == ls.last());
            }
        }
    }
}

/// The forward only ever goes into, or is only ever found in, a block for the
/// host: the line after which it is put, and the line where an existing forward
/// is found, come after a line that names the host (by a `Host` pattern that is
/// not all wildcards, or by `HostName`), with no other `Host` line in between.
pub proof fn lemma_forward_in_matching_block(config: Seq<char>, host: Seq<char>, port: nat)
    ensures
        ({
            let ls = lines(config);
            let h = hostname_of(host);
            let fwd = forward_text(port);
            let st = scan(ls, h, fwd);
            &&& st.inject_after matches Some(k) ==> exists|j: int|
                #[trigger] block_open_since(ls, h, j, k + 1)
            &&& st.found ==> exists|m: int, j: int|
                #![trigger ls[m], block_open_since(ls, h, j, m + 1)]
                0 <= m < ls.len() && contains_seq(trim(ls[m]), fwd)
                    && block_open_since(ls, h, j, m + 1)
        }),
{
    let ls = lines(config);
    let h = hostname_of(host);
    let fwd = forward_text(port);
    let st = scan(ls, h, fwd);
    if let Some(k) = st.inject_after {
        lemma_scan_inject(ls, h, fwd);
        let pre = ls.take(k + 1);
        lemma_scan_in_block(pre, h, fwd);
        let j = choose|j: int| block_open_since(pre, h, j, pre.len() as int);
        assert(ls[j] == pre[j]);
        assert forall|m: int| j < m < k + 1 implies !ends_block(#[trigger] ls[m], h) by {
            assert(ls[m] == pre[m]);
        }
        assert(block_open_since(ls, h, j, k + 1));
    }
    if st.found {
        lemma_scan_found(ls, h, fwd);
        let m = choose|m: int|
            0 <= m < ls.len() && contains_seq(trim(#[trigger] ls[m]), fwd) && scan(
                ls.take(m + 1),
                h,
                fwd,
            ).in_block;
        let pre = ls.take(m + 1);
        lemma_scan_in_block(pre, h, fwd);
        let j = choose|j: int| block_open_since(pre, h, j, pre.len() as int);
        assert(ls[j] == pre[j]);
        assert forall|q: int| j < q < m + 1 implies !ends_block(#[trigger] ls[q], h) by {
            assert(ls[q] == pre[q]);
        }
        assert(block_open_since(ls, h, j, m + 1));
    }
}


proof fn lemma_scan_names(ls: Seq<Seq<char>>, h: Seq<char>, fwd: Seq<char>)
    ensures
        scan(ls, h, fwd).in_block ==> scan(ls, h, fwd).inject_after is Some,
        scan(ls, h, fwd).inject_after is None <==> forall|m: int|
            0 <= m < ls.len() ==> !names_host(#[trigger] ls[m], h),
    decreases ls.len(),
{
    if ls.len() > 0 {
        let n = ls.len() - 1;
        let ls2 = ls.drop_last();
        let x = ls.last();
        let t = trim(x);
        lemma_scan_names(ls2, h, fwd);
        assert(ls[n] == x);
        assert forall|m: int| 0 <= m < n implies ls[m] == ls2[m] by {}
        if starts_with(t, "Host "@) {
            lemma_host_not_hostname(t);
        }
        if scan(ls, h, fwd).inject_after is None {
            assert forall|m: int| 0 <= m < ls.len() implies !names_host(#[trigger] ls[m], h) by {
                if m < n {
                    assert(ls[m] == ls2[m]);
                }
            }
        } else {
            if !names_host(x, h) {
                assert(scan(ls2, h, fwd).inject_after is Some);
                let m = choose|m: int| 0 <= m < ls2.len() && names_host(#[trigger] ls2[m], h);
                assert(ls[m] == ls2[m]);
            }
        }
    }
}

/// A new block for the host is appended exactly when no line of the
/// configuration names the host, neither by a `Host` pattern that is not all
/// wildcards nor by `HostName`.
pub proof fn lemma_new_block_iff_unnamed(config: Seq<char>, host: Seq<char>, port: nat)
    ensures
        scan(lines(config), hostname_of(host), forward_text(port)).inject_after is None
            <==> forall|m: int|
            0 <= m < lines(config).len() ==> !names_host(
                #[trigger] lines(config)[m],
                hostname_of(host),
            ),
{
    lemma_scan_names(lines(config), hostname_of(host), forward_text(port));
}

} // verus!
