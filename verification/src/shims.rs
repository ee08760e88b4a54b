//! The `xclip` and `wl-paste` shims that fetch clipboard images from a
//! clipaste server, and the shell script that installs them over SSH.
use vstd::prelude::*;
use crate::text::{
    chars_of, contains_at, contains_seq, extend_all, extend_str, range_contains, range_starts_with, starts_with,
    string_from_chars, trim, trim_range,
};

verus! {

/// The `xclip` shim; `__CLIPASTE_URL__` stands for the server URL.
pub const XCLIP_SHIM_TEMPLATE: &'static str = r#"#!/bin/bash
# clipaste xclip shim — intercepts xclip calls and fetches images from clipaste
# Installed by: clipaste wsl-setup

CLIPASTE_URL="__CLIPASTE_URL__"
REAL_XCLIP="$(PATH=$(echo "$PATH" | sed "s|$HOME/.local/bin:||g") command -v xclip 2>/dev/null)"

case "$*" in
    *"-selection clipboard"*"-t TARGETS"*"-o"*|*"-sel clip"*"-t TARGETS"*"-o"*)
        if curl -sf "${CLIPASTE_URL}/clipboard/type" 2>/dev/null | grep -q '"image"'; then
            echo "TARGETS"
            echo "image/png"
            exit 0
        fi
        ;;
    *"-selection clipboard"*"-t image/png"*"-o"*|*"-sel clip"*"-t image/png"*"-o"*)
        tmpfile=$(mktemp /tmp/clipaste-remote-XXXXXX.png)
        if curl -sf -o "$tmpfile" "${CLIPASTE_URL}/clipboard/image" 2>/dev/null; then
            if [ -s "$tmpfile" ]; then
                cat "$tmpfile"
                rm -f "$tmpfile"
                exit 0
            fi
        fi
        rm -f "$tmpfile"
        ;;
esac

if [ -n "$REAL_XCLIP" ] && [ -x "$REAL_XCLIP" ]; then
    exec "$REAL_XCLIP" "$@"
else
    echo "xclip not found" >&2
    exit 1
fi
"#;

/// The `wl-paste` shim; `__CLIPASTE_URL__` stands for the server URL.
pub const WL_PASTE_SHIM_TEMPLATE: &'static str = r#"#!/bin/bash
# clipaste wl-paste shim — for Wayland environments
# Installed by: clipaste wsl-setup

CLIPASTE_URL="__CLIPASTE_URL__"
REAL_WL_PASTE="$(PATH=$(echo "$PATH" | sed "s|$HOME/.local/bin:||g") command -v wl-paste 2>/dev/null)"

case "$*" in
    *"--list-types"*)
        if curl -sf "${CLIPASTE_URL}/clipboard/type" 2>/dev/null | grep -q '"image"'; then
            echo "image/png"
            echo "text/plain"
            exit 0
        fi
        ;;
    *"--type image/"*|*"-t image/"*)
        tmpfile=$(mktemp /tmp/clipaste-remote-XXXXXX.png)
        if curl -sf -o "$tmpfile" "${CLIPASTE_URL}/clipboard/image" 2>/dev/null; then
            if [ -s "$tmpfile" ]; then
                cat "$tmpfile"
                rm -f "$tmpfile"
                exit 0
            fi
        fi
        rm -f "$tmpfile"
        ;;
esac

if [ -n "$REAL_WL_PASTE" ] && [ -x "$REAL_WL_PASTE" ]; then
    exec "$REAL_WL_PASTE" "$@"
else
    echo "wl-paste not found" >&2
    exit 1
fi
"#;

/// What stands for the server URL in the shim templates.
pub const URL_PLACEHOLDER: &'static str = "__CLIPASTE_URL__";

/// The install script up to the `xclip` shim.
pub const SCRIPT_HEAD: &'static str = r#"
mkdir -p ~/.local/bin
cat > ~/.local/bin/xclip << 'SHIMEOF'
"#;

/// The install script between the two shims.
pub const SCRIPT_MIDDLE: &'static str = r#"
SHIMEOF
chmod +x ~/.local/bin/xclip

cat > ~/.local/bin/wl-paste << 'SHIMEOF'
"#;

/// The install script after the `wl-paste` shim.
pub const SCRIPT_TAIL: &'static str = r#"
SHIMEOF
chmod +x ~/.local/bin/wl-paste

# Ensure ~/.local/bin is in PATH
if ! echo "$PATH" | grep -q "$HOME/.local/bin"; then
    for rc in ~/.bashrc ~/.zshrc; do
        if [ -f "$rc" ] && ! grep -q 'clipaste PATH' "$rc"; then
            echo '# clipaste PATH' >> "$rc"
            echo 'export PATH="$HOME/.local/bin:$PATH"' >> "$rc"
        fi
    done
fi
echo "OK"
"#;

/// `str::replace` with a non-empty pattern: every occurrence of `p`, taken from
/// left to right without overlap, becomes `r`.
pub open spec fn replace_all(s: Seq<char>, p: Seq<char>, r: Seq<char>) -> Seq<char>
    decreases s.len(),
{
    if s.len() == 0 {
        Seq::<char>::empty()
    } else if p.len() > 0 && starts_with(s, p) {
        r + replace_all(s.skip(p.len() as int), p, r)
    } else {
        seq![s[0]] + replace_all(s.drop_first(), p, r)
    }
}

/// Text before the first occurrence is kept as it is: when `p` starts at no
/// position inside `a` (in `a + s`), replacing in `a + s` keeps `a` and goes on
/// with `s`.
pub proof fn lemma_replace_keeps_prefix(a: Seq<char>, s: Seq<char>, p: Seq<char>, r: Seq<char>)
    requires
        p.len() > 0,
        forall|i: int| 0 <= i < a.len() ==> !contains_at(a + s, p, i),
    ensures
        replace_all(a + s, p, r) == a + replace_all(s, p, r),
    decreases a.len(),
{
    if a.len() == 0 {
        assert(a + s =~= s);
        assert(a + replace_all(s, p, r) =~= replace_all(s, p, r));
    } else {
        let x = a + s;
        assert(!contains_at(x, p, 0));
        assert(!starts_with(x, p)) by {
            if starts_with(x, p) {
                assert(contains_at(x, p, 0));
            }
        }
        let a2 = a.drop_first();
        assert(x.drop_first() =~= a2 + s);
        assert forall|i: int| 0 <= i < a2.len() implies !contains_at(a2 + s, p, i) by {
            assert(!contains_at(x, p, i + 1));
            if contains_at(a2 + s, p, i) {
                assert(x.subrange(i + 1, i + 1 + p.len()) =~= (a2 + s).subrange(i, i + p.len()));
            }
        }
        lemma_replace_keeps_prefix(a2, s, p, r);
        assert(seq![x[0]] + (a2 + replace_all(s, p, r)) =~= a + replace_all(s, p, r));
    }
}

/// Text where the pattern does not occur is left unchanged.
pub proof fn lemma_replace_no_occurrence(s: Seq<char>, p: Seq<char>, r: Seq<char>)
    requires
        p.len() > 0,
        !contains_seq(s, p),
    ensures
        replace_all(s, p, r) == s,
{
    let e = Seq::<char>::empty();
    assert(s + e =~= s);
    lemma_replace_keeps_prefix(s, e, p, r);
    assert(replace_all(e, p, r) =~= e);
    assert(s + e =~= s);
}

/// One occurrence is replaced and everything around it kept: in `a + p + b`,
/// with `p` starting at no position inside `a` and not occurring in `b`, the
/// result is `a + r + b`.
pub proof fn lemma_replace_one(a: Seq<char>, p: Seq<char>, b: Seq<char>, r: Seq<char>)
    requires
        p.len() > 0,
        forall|i: int| 0 <= i < a.len() ==> !contains_at(a + p + b, p, i),
        !contains_seq(b, p),
    ensures
        replace_all(a + p + b, p, r) == a + r + b,
{
    assert(a + p + b =~= a + (p + b));
    lemma_replace_keeps_prefix(a, p + b, p, r);
    let t = p + b;
    assert(t.subrange(0, p.len() as int) =~= p);
    assert(t.skip(p.len() as int) =~= b);
    lemma_replace_no_occurrence(b, p, r);
    assert(a + (r + b) =~= a + r + b);
}

fn replace_str(s: &str, pat: &str, rep: &str) -> (r: String)
    requires
        pat@.len() > 0,
    ensures
        r@ == replace_all(s@, pat@, rep@),
{
    let v = chars_of(s);
    let p = chars_of(pat);
    let rv = chars_of(rep);
    let n = v.len();
    let mut out: Vec<char> = Vec::new();
    let mut i: usize = 0;
    assert(v@.skip(0) =~= v@);
    while i < n
        invariant
            n == v@.len(),
            v@ == s@,
            p@ == pat@,
            rv@ == rep@,
            p@.len() > 0,
            i <= n,
            out@ + replace_all(v@.skip(i as int), p@, rv@) == replace_all(v@, p@, rv@),
        decreases n - i,
    {
        let ghost rest = v@.skip(i as int);
        assert(rest =~= v@.subrange(i as int, n as int));
        if range_starts_with(v.as_slice(), i, n, p.as_slice()) {
            assert(rest.skip(p@.len() as int) =~= v@.skip(i + p@.len()));
            extend_all(&mut out, rv.as_slice());
            i = i + p.len();
            assert(out@ + replace_all(v@.skip(i as int), p@, rv@) =~= replace_all(v@, p@, rv@));
        } else {
            assert(rest.drop_first() =~= v@.skip(i + 1));
            out.push(v[i]);
            i = i + 1;
            assert(out@ + replace_all(v@.skip(i as int), p@, rv@) =~= replace_all(v@, p@, rv@));
        }
    }
    assert(v@.skip(n as int) =~= Seq::<char>::empty());
    assert(out@ =~= replace_all(v@, p@, rv@));
    string_from_chars(out.as_slice())
}

/// A shim template with the server URL put in for each placeholder.
pub fn render_shim(template: &str, url: &str) -> (r: String)
    ensures
        r@ == replace_all(template@, URL_PLACEHOLDER@, url@),
{
    proof {
        reveal_strlit("__CLIPASTE_URL__");
    }
    replace_str(template, URL_PLACEHOLDER, url)
}

/// The `xclip` shim for a server URL.
pub fn xclip_shim(url: &str) -> (r: String)
    ensures
        r@ == replace_all(XCLIP_SHIM_TEMPLATE@, URL_PLACEHOLDER@, url@),
{
    render_shim(XCLIP_SHIM_TEMPLATE, url)
}

/// The `wl-paste` shim for a server URL.
pub fn wl_paste_shim(url: &str) -> (r: String)
    ensures
        r@ == replace_all(WL_PASTE_SHIM_TEMPLATE@, URL_PLACEHOLDER@, url@),
{
    render_shim(WL_PASTE_SHIM_TEMPLATE, url)
}

/// The shell script, run on the remote host, that installs both shims into
/// `~/.local/bin` and puts that directory on the `PATH` in the shell profiles.
pub fn ssh_setup_script(url: &str) -> (r: String)
    ensures
        r@ == SCRIPT_HEAD@ + replace_all(XCLIP_SHIM_TEMPLATE@, URL_PLACEHOLDER@, url@)
            + SCRIPT_MIDDLE@ + replace_all(WL_PASTE_SHIM_TEMPLATE@, URL_PLACEHOLDER@, url@)
            + SCRIPT_TAIL@,
{
    let x = xclip_shim(url);
    let w = wl_paste_shim(url);
    let mut out: Vec<char> = Vec::new();
    extend_str(&mut out, SCRIPT_HEAD);
    extend_str(&mut out, x.as_str());
    extend_str(&mut out, SCRIPT_MIDDLE);
    extend_str(&mut out, w.as_str());
    extend_str(&mut out, SCRIPT_TAIL);
    string_from_chars(out.as_slice())
}

/// The marker of the `PATH` line in a shell profile.
pub const PATH_MARKER: &'static str = "clipaste PATH";

/// Whether a shell profile still needs the `PATH` line: it lacks the marker.
pub fn profile_needs_path(content: &str) -> (r: bool)
    ensures
        r == !contains_seq(content@, PATH_MARKER@),
{
    let v = chars_of(content);
    let m = chars_of(PATH_MARKER);
    assert(v@.subrange(0, v@.len() as int) =~= v@);
    !range_contains(v.as_slice(), 0, v.len(), m.as_slice())
}

/// The outcome of running the install script over SSH: success, or the
/// trimmed error output of `ssh`.
pub fn remote_install_result(success: bool, stderr: &str) -> (r: Result<(), String>)
    ensures
        success ==> r is Ok,
        !success ==> (r matches Err(e) && e@ == trim(stderr@)),
{
    if success {
        Ok(())
    } else {
        let v = chars_of(stderr);
        let (a, b) = trim_range(v.as_slice(), 0, v.len());
        assert(v@.subrange(0, v@.len() as int) =~= v@);
        Err(crate::text::string_from_range(v.as_slice(), a, b))
    }
}

} // verus!
