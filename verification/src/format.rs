//! Decimal rendering of numbers and the URLs built from it.
use vstd::prelude::*;
use crate::text::{extend_str, extend_all, string_from_chars};

verus! {

/// The port of the clipaste HTTP server, locally and through the SSH tunnel.
pub const DEFAULT_PORT: u16 = 18340;

/// The character of a decimal digit.
pub open spec fn digit_char(d: nat) -> char {
    seq!['0', '1', '2', '3', '4', '5', '6', '7', '8', '9'][d as int]
}

/// The decimal representation of `n`, without leading zeros.
pub open spec fn dec(n: nat) -> Seq<char>
    decreases n,
{
    if n < 10 {
        seq![digit_char(n)]
    } else {
        dec(n / 10).push(digit_char(n % 10))
    }
}

/// The number that a string of decimal digits reads as.
pub open spec fn digits_value(s: Seq<char>) -> int
    decreases s.len(),
{
    if s.len() == 0 {
        0
    } else {
        digits_value(s.drop_last()) * 10 + (s.last() as int - '0' as int)
    }
}

proof fn lemma_digit_char(d: nat)
    requires
        d < 10,
    ensures
        digit_char(d) as int - '0' as int == d,
        '0' <= digit_char(d) <= '9',
{
    let t = seq!['0', '1', '2', '3', '4', '5', '6', '7', '8', '9'];
    assert(t[0] == '0' && t[1] == '1' && t[2] == '2' && t[3] == '3' && t[4] == '4');
    assert(t[5] == '5' && t[6] == '6' && t[7] == '7' && t[8] == '8' && t[9] == '9');
}

/// `dec(n)` is a string of decimal digits that reads as `n`, with no leading
/// zero (only `0` itself starts with `0`).
pub proof fn lemma_dec_reads_back(n: nat)
    ensures
        digits_value(dec(n)) == n,
        dec(n).len() >= 1,
        forall|i: int| 0 <= i < dec(n).len() ==> '0' <= #[trigger] dec(n)[i] <= '9',
        dec(n)[0] == '0' ==> n == 0,
    decreases n,
{
    lemma_digit_char(n % 10);
    if n < 10 {
        assert(n % 10 == n);
        assert(dec(n).drop_last() =~= Seq::<char>::empty());
        assert(digits_value(Seq::<char>::empty()) == 0);
        assert(dec(n).last() == digit_char(n));
    }
    if n >= 10 {
        lemma_dec_reads_back(n / 10);
        let d = dec(n / 10);
        assert(dec(n).drop_last() =~= d);
        assert(dec(n).last() == digit_char(n % 10));
        assert(digits_value(dec(n)) == digits_value(d) * 10 + (digit_char(n % 10) as int - '0' as int));
        assert(dec(n)[0] == d[0]);
        assert forall|i: int| 0 <= i < dec(n).len() implies '0' <= #[trigger] dec(n)[i] <= '9' by {
            if i < d.len() {
                assert(dec(n)[i] == d[i]);
            }
        }
    }
}

/// Appends the decimal representation of `n` to `out`.
pub fn push_decimal(out: &mut Vec<char>, n: u64)
    ensures
        final(out)@ == old(out)@ + dec(n as nat),
    decreases n,
{
    let digits = ['0', '1', '2', '3', '4', '5', '6', '7', '8', '9'];
    assert(digits@ == seq!['0', '1', '2', '3', '4', '5', '6', '7', '8', '9']);
    if n >= 10 {
        push_decimal(out, n / 10);
    }
    let d = (n % 10) as usize;
    out.push(digits[d]);
    assert(out@ =~= old(out)@ + dec(n as nat));
}

/// The decimal representation of `n` as a string.
pub fn decimal_string(n: u64) -> (r: String)
    ensures
        r@ == dec(n as nat),
{
    let mut v: Vec<char> = Vec::new();
    push_decimal(&mut v, n);
    assert(v@ =~= dec(n as nat));
    string_from_chars(v.as_slice())
}

/// The base URL of a clipaste server: `http://{host}:{port}`.
pub fn server_url(host: &str, port: u16) -> (r: String)
    ensures
        r@ == seq!['h', 't', 't', 'p', ':', '/', '/'] + host@ + seq![':'] + dec(port as nat),
{
    let mut v: Vec<char> = Vec::new();
    v.push('h');
    v.push('t');
    v.push('t');
    v.push('p');
    v.push(':');
    v.push('/');
    v.push('/');
    extend_str(&mut v, host);
    v.push(':');
    push_decimal(&mut v, port as u64);
    assert(v@ =~= seq!['h', 't', 't', 'p', ':', '/', '/'] + host@ + seq![':'] + dec(port as nat));
    string_from_chars(v.as_slice())
}

/// The health-check URL of a server: `{base_url}/health`.
pub fn health_url(base_url: &str) -> (r: String)
    ensures
        r@ == base_url@ + seq!['/', 'h', 'e', 'a', 'l', 't', 'h'],
{
    let mut v: Vec<char> = Vec::new();
    extend_str(&mut v, base_url);
    let suffix = vec!['/', 'h', 'e', 'a', 'l', 't', 'h'];
    extend_all(&mut v, suffix.as_slice());
    string_from_chars(v.as_slice())
}

} // verus!
