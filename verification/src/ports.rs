//! Port specifications and per-address port status.
//!
//! A port specification is a comma-separated list of tokens, each either a
//! single decimal port number or an inclusive `lower-upper` range.  The
//! parsed result keeps input order and duplicates.  A status accumulates
//! open and closed ports for one address and renders them compactly, with
//! runs of consecutive ports collapsed into `lo-hi` tokens.

use vstd::prelude::*;

verus! {

use crate::sorting::sorted;
use crate::sorting::sort_vec;

/// A character is a decimal digit.
pub open spec fn is_digit(c: char) -> bool {
    48 <= c as u32 && c as u32 <= 57
}

/// Numeric value of a decimal digit character.
pub open spec fn digit_val(c: char) -> int {
    c as u32 - 48
}

/// Every character of `s` is a decimal digit.
pub open spec fn all_digits(s: Seq<char>) -> bool {
    forall|i: int| 0 <= i < s.len() ==> is_digit(s[i])
}

/// Value of a digit string read as a decimal number.
pub open spec fn digits_val(s: Seq<char>) -> int
    decreases s.len(),
{
    if s.len() == 0 {
        0
    } else {
        digits_val(s.drop_last()) * 10 + digit_val(s.last())
    }
}

/// A digit string's value never goes negative.
pub proof fn lemma_digits_val_nonneg(t: Seq<char>)
    requires
        all_digits(t),
    ensures
        digits_val(t) >= 0,
    decreases t.len(),
{
    if t.len() > 0 {
        assert(all_digits(t.drop_last())) by {
            assert(forall|i: int|
                0 <= i < t.drop_last().len() ==> t.drop_last()[i] == t[i]);
        }
        lemma_digits_val_nonneg(t.drop_last());
    }
}

/// Extending a digit string can only increase its value: the whole string
/// is worth at least any of its prefixes.
pub proof fn lemma_digits_val_prefix(t: Seq<char>, j: int)
    requires
        all_digits(t),
        0 <= j <= t.len(),
    ensures
        digits_val(t) >= digits_val(t.subrange(0, j)),
    decreases t.len() - j,
{
    if j == t.len() {
        assert(t.subrange(0, j) =~= t);
    } else {
        let p = t.subrange(0, j);
        let q = t.subrange(0, j + 1);
        assert(q.drop_last() =~= p);
        assert(q.last() == t[j]);
        assert(all_digits(p)) by {
            assert(forall|i: int| 0 <= i < p.len() ==> p[i] == t[i]);
        }
        lemma_digits_val_nonneg(p);
        lemma_digits_val_prefix(t, j + 1);
    }
}

/// Index of the first occurrence of `c` in `s`, or -1 when absent.
pub open spec fn find_char(s: Seq<char>, c: char) -> int
    decreases s.len(),
{
    if s.len() == 0 {
        -1
    } else if s[0] == c {
        0
    } else if find_char(s.drop_first(), c) == -1 {
        -1
    } else {
        1 + find_char(s.drop_first(), c)
    }
}

/// `find_char` is the first index holding `c`: if the `i` characters
/// before `i` all differ from `c`, the answer is `i` itself (when `s[i]`
/// is `c`) or -1 (when `i` is the whole length).
pub proof fn lemma_find_char_first(s: Seq<char>, c: char, i: int)
    requires
        0 <= i <= s.len(),
        forall|k: int| 0 <= k < i ==> s[k] != c,
        i == s.len() || s[i] == c,
    ensures
        find_char(s, c) == if i == s.len() { -1 } else { i },
    decreases s.len(),
{
    if s.len() == 0 {
    } else if s[0] == c {
        assert(i == 0);
    } else {
        assert(i >= 1);
        let t = s.drop_first();
        assert(forall|k: int| 0 <= k < i - 1 ==> t[k] == s[k + 1] && t[k] != c);
        assert(i - 1 == t.len() || t[i - 1] == c);
        lemma_find_char_first(t, c, i - 1);
    }
}

/// The token is a decimal port number: digits only, value at most 65535.
pub open spec fn is_port_tok(s: Seq<char>) -> bool {
    s.len() > 0 && all_digits(s) && digits_val(s) <= 65535
}

/// All ports from `lo` to `hi` inclusive, ascending.
pub open spec fn range_seq(lo: int, hi: int) -> Seq<u16>
    recommends
        0 <= lo <= hi <= 65535,
{
    Seq::new((hi - lo + 1) as nat, |k: int| (lo + k) as u16)
}

/// Why a port specification failed to parse.
#[derive(Clone, Copy, Debug, PartialEq, Eq, Structural)]
pub enum ParseError {
    /// A token, or one endpoint of a range, is not a decimal port number.
    InvalidPort,
    /// A range's lower endpoint exceeds its upper endpoint.
    InvalidRange,
}

/// Meaning of one comma-separated token: a single port, or an inclusive
/// `lower-upper` range (split at the first `-`) expanded in ascending
/// order.
pub open spec fn eval_token(t: Seq<char>) -> Result<Seq<u16>, ParseError> {
    let d = find_char(t, '-');
    if d == -1 {
        if is_port_tok(t) {
            Ok(seq![digits_val(t) as u16])
        } else {
            Err(ParseError::InvalidPort)
        }
    } else {
        let lo = t.subrange(0, d);
        let hi = t.subrange(d + 1, t.len() as int);
        if !(is_port_tok(lo) && is_port_tok(hi)) {
            Err(ParseError::InvalidPort)
        } else if digits_val(lo) > digits_val(hi) {
            Err(ParseError::InvalidRange)
        } else {
            Ok(range_seq(digits_val(lo), digits_val(hi)))
        }
    }
}

/// `find_char` stays inside the sequence when it finds something.
pub proof fn lemma_find_char_bounds(s: Seq<char>, c: char)
    ensures
        find_char(s, c) == -1 || (0 <= find_char(s, c) < s.len() && s[find_char(s, c)] == c),
    decreases s.len(),
{
    if s.len() > 0 && s[0] != c {
        lemma_find_char_bounds(s.drop_first(), c);
    }
}

/// Meaning of a whole specification: tokens split on commas, evaluated
/// left to right, their ports concatenated; the first failing token
/// decides the error.
pub open spec fn eval_spec(s: Seq<char>) -> Result<Seq<u16>, ParseError>
    decreases s.len(),
        via eval_spec_decreases
{
    let c = find_char(s, ',');
    if c == -1 {
        eval_token(s)
    } else {
        match eval_token(s.subrange(0, c)) {
            Ok(ps) => match eval_spec(s.subrange(c + 1, s.len() as int)) {
                Ok(rest) => Ok(ps + rest),
                Err(e) => Err(e),
            },
            Err(e) => Err(e),
        }
    }
}

#[via_fn]
proof fn eval_spec_decreases(s: Seq<char>) {
    lemma_find_char_bounds(s, ',');
}

/// The digit character for a value below ten.
pub open spec fn digit_char(d: int) -> char
    recommends
        0 <= d <= 9,
{
    if d == 0 { '0' }
    else if d == 1 { '1' }
    else if d == 2 { '2' }
    else if d == 3 { '3' }
    else if d == 4 { '4' }
    else if d == 5 { '5' }
    else if d == 6 { '6' }
    else if d == 7 { '7' }
    else if d == 8 { '8' }
    else { '9' }
}

/// Decimal rendering of a non-negative number, without leading zeros
/// (except for the number zero itself).
pub open spec fn dec_digits(n: int) -> Seq<char>
    recommends
        n >= 0,
    decreases n,
{
    if n <= 9 {
        seq![digit_char(n)]
    } else {
        dec_digits(n / 10).push(digit_char(n % 10))
    }
}

/// Index of the last element of the run of consecutive (or equal) values
/// that starts at `i`.
pub open spec fn run_end(s: Seq<u16>, i: int) -> int
    recommends
        0 <= i < s.len(),
    decreases s.len() - i,
{
    if i + 1 < s.len() && s[i + 1] <= s[i] + 1 {
        run_end(s, i + 1)
    } else {
        i
    }
}

/// A run's end lies between its start and the end of the sequence.
pub proof fn lemma_run_end_bounds(s: Seq<u16>, i: int)
    requires
        0 <= i < s.len(),
    ensures
        i <= run_end(s, i) < s.len(),
    decreases s.len() - i,
{
    if i + 1 < s.len() && s[i + 1] <= s[i] + 1 {
        lemma_run_end_bounds(s, i + 1);
    }
}

/// Compact rendering of the ports from index `i` on: each maximal run of
/// consecutive values becomes `lo-hi` (a lone value stays bare), runs are
/// joined with commas.
pub open spec fn fmt_ranges_from(s: Seq<u16>, i: int) -> Seq<char>
    decreases s.len() - i,
        via fmt_ranges_from_decreases
{
    if !(0 <= i < s.len()) {
        Seq::empty()
    } else {
        let e = run_end(s, i);
        let tok = if e == i {
            dec_digits(s[i] as int)
        } else {
            dec_digits(s[i] as int) + seq!['-'] + dec_digits(s[e] as int)
        };
        if e + 1 < s.len() {
            tok + seq![','] + fmt_ranges_from(s, e + 1)
        } else {
            tok
        }
    }
}

#[via_fn]
proof fn fmt_ranges_from_decreases(s: Seq<u16>, i: int) {
    if 0 <= i < s.len() {
        lemma_run_end_bounds(s, i);
    }
}

/// Full rendering of a port list: the compact ranges, or `none` when empty.
pub open spec fn fmt_ports(s: Seq<u16>) -> Seq<char> {
    if s.len() == 0 {
        seq!['n', 'o', 'n', 'e']
    } else {
        fmt_ranges_from(s, 0)
    }
}

/// Appends the decimal rendering of `n` to `out`.
fn append_dec(out: &mut String, n: u16)
    ensures
        final(out)@ == old(out)@ + dec_digits(n as int),
    decreases n,
{
    if n >= 10 {
        append_dec(out, n / 10);
    }
    let d = n % 10;
    let ghost pre = out@;
    if d == 0 {
        proof { reveal_strlit("0"); }
        out.append("0");
    } else if d == 1 {
        proof { reveal_strlit("1"); }
        out.append("1");
    } else if d == 2 {
        proof { reveal_strlit("2"); }
        out.append("2");
    } else if d == 3 {
        proof { reveal_strlit("3"); }
        out.append("3");
    } else if d == 4 {
        proof { reveal_strlit("4"); }
        out.append("4");
    } else if d == 5 {
        proof { reveal_strlit("5"); }
        out.append("5");
    } else if d == 6 {
        proof { reveal_strlit("6"); }
        out.append("6");
    } else if d == 7 {
        proof { reveal_strlit("7"); }
        out.append("7");
    } else if d == 8 {
        proof { reveal_strlit("8"); }
        out.append("8");
    } else {
        proof { reveal_strlit("9"); }
        out.append("9");
    }
    proof {
        assert(out@ =~= pre.push(digit_char(d as int)));
        if n >= 10 {
            assert(out@ =~= old(out)@ + dec_digits(n as int));
        } else {
            assert(out@ =~= old(out)@ + dec_digits(n as int));
        }
    }
}

/// Appends the compact rendering of the runs of `v` from index `i` on.
fn fmt_from(v: &Vec<u16>, i: usize, out: &mut String)
    requires
        sorted(v@),
        i < v@.len(),
    ensures
        final(out)@ == old(out)@ + fmt_ranges_from(v@, i as int),
    decreases v@.len() - i,
{
    let n = v.len();
    let mut e: usize = i;
    while e + 1 < n && v[e + 1] - v[e] <= 1
        invariant
            sorted(v@),
            n == v@.len(),
            i <= e < v@.len(),
            run_end(v@, i as int) == run_end(v@, e as int),
        decreases v@.len() - e,
    {
        e = e + 1;
    }
    proof {
        assert(run_end(v@, e as int) == e);
        assert(run_end(v@, i as int) == e);
    }
    let ghost pre = out@;
    append_dec(out, v[i]);
    if e != i {
        proof { reveal_strlit("-"); }
        out.append("-");
        proof {
            assert(out@ =~= pre + dec_digits(v@[i as int] as int) + seq!['-']);
        }
        append_dec(out, v[e]);
    }
    if e + 1 < n {
        let ghost mid = out@;
        proof { reveal_strlit(","); }
        out.append(",");
        proof {
            assert(out@ =~= mid + seq![',']);
        }
        fmt_from(v, e + 1, out);
    }
    proof {
        assert(out@ =~= pre + fmt_ranges_from(v@, i as int));
    }
}

/// Parses the characters `s[a..b]` as a decimal port number; `None` when
/// they are not one (empty, a non-digit, or a value above 65535).
fn parse_num(s: &str, a: usize, b: usize) -> (r: Option<u16>)
    requires
        a <= b <= s@.len(),
    ensures
        match r {
            Some(v) => is_port_tok(s@.subrange(a as int, b as int)) && v as int == digits_val(
                s@.subrange(a as int, b as int),
            ),
            None => !is_port_tok(s@.subrange(a as int, b as int)),
        },
{
    let ghost t = s@.subrange(a as int, b as int);
    if a == b {
        return None;
    }
    let mut val: u32 = 0;
    let mut i: usize = a;
    while i < b
        invariant
            a <= i <= b <= s@.len(),
            t == s@.subrange(a as int, b as int),
            all_digits(t.subrange(0, i - a)),
            val as int == digits_val(t.subrange(0, i - a)),
            val <= 65535,
        decreases b - i,
    {
        let ch = s.get_char(i);
        let u = ch as u32;
        if u < 48 || u > 57 {
            proof {
                assert(t[i - a] == ch);
                assert(!is_digit(ch));
            }
            return None;
        }
        let d = u - 48;
        proof {
            assert(t.subrange(0, i - a + 1).drop_last() =~= t.subrange(0, i - a));
            assert(t.subrange(0, i - a + 1).last() == t[i - a]);
            assert(t[i - a] == ch);
            assert(all_digits(t.subrange(0, i - a + 1))) by {
                let q = t.subrange(0, i - a + 1);
                assert forall|k: int| 0 <= k < q.len() implies is_digit(q[k]) by {
                    if k < i - a {
                        assert(q[k] == t.subrange(0, i - a)[k]);
                    } else {
                        assert(q[k] == t[i - a]);
                    }
                }
            }
        }
        let newval = val * 10 + d;
        if newval > 65535 {
            proof {
                if all_digits(t) {
                    lemma_digits_val_prefix(t, i - a + 1);
                }
            }
            return None;
        }
        val = newval;
        i = i + 1;
    }
    proof {
        assert(t.subrange(0, (b - a) as int) =~= t);
    }
    Some(val as u16)
}

/// Evaluates one comma-separated token `s[a..b]`, appending its ports to
/// `out` on success.
fn parse_token(s: &str, a: usize, b: usize, out: &mut Vec<u16>) -> (r: Result<(), ParseError>)
    requires
        a <= b <= s@.len(),
    ensures
        r is Ok ==> eval_token(s@.subrange(a as int, b as int)) is Ok && final(out)@ == old(out)@
            + eval_token(s@.subrange(a as int, b as int))->Ok_0,
        r is Err ==> eval_token(s@.subrange(a as int, b as int)) == Err::<Seq<u16>, ParseError>(
            r->Err_0,
        ) && final(out)@ == old(out)@,
{
    let ghost t = s@.subrange(a as int, b as int);
    let mut d: usize = a;
    while d < b && s.get_char(d) != '-'
        invariant
            a <= d <= b <= s@.len(),
            t == s@.subrange(a as int, b as int),
            forall|k: int| 0 <= k < d - a ==> t[k] != '-',
        decreases b - d,
    {
        d = d + 1;
    }
    proof {
        if d < b {
            assert(t[d - a] == '-');
        }
        lemma_find_char_first(t, '-', d - a);
    }
    if d == b {
        match parse_num(s, a, b) {
            Some(p) => {
                out.push(p);
                proof {
                    assert(out@ =~= old(out)@ + seq![p]);
                }
                Ok(())
            },
            None => Err(ParseError::InvalidPort),
        }
    } else {
        proof {
            assert(t.subrange(0, d - a) =~= s@.subrange(a as int, d as int));
            assert(t.subrange(d - a + 1, t.len() as int) =~= s@.subrange(d as int + 1, b as int));
        }
        let lo = parse_num(s, a, d);
        let hi = parse_num(s, d + 1, b);
        match (lo, hi) {
            (Some(l), Some(h)) => {
                if l > h {
                    Err(ParseError::InvalidRange)
                } else {
                    let ghost pre = out@;
                    let mut k: u32 = l as u32;
                    while k <= h as u32
                        invariant
                            l <= h,
                            l as u32 <= k <= h as u32 + 1,
                            out@ =~= pre + range_seq(l as int, k - 1),
                        decreases h as u32 + 1 - k,
                    {
                        out.push(k as u16);
                        proof {
                            assert(out@ =~= pre + range_seq(l as int, k as int));
                        }
                        k = k + 1;
                    }
                    proof {
                        assert(out@ =~= pre + range_seq(l as int, h as int));
                    }
                    Ok(())
                }
            },
            _ => Err(ParseError::InvalidPort),
        }
    }
}

/// Parses the remainder of the specification from `start` on, one token
/// per comma-separated stretch.
fn parse_tail(s: &str, start: usize, out: &mut Vec<u16>) -> (r: Result<(), ParseError>)
    requires
        start <= s@.len(),
    ensures
        r is Ok ==> eval_spec(s@.subrange(start as int, s@.len() as int)) is Ok && final(out)@
            == old(out)@ + eval_spec(s@.subrange(start as int, s@.len() as int))->Ok_0,
        r is Err ==> eval_spec(s@.subrange(start as int, s@.len() as int)) == Err::<
            Seq<u16>,
            ParseError,
        >(r->Err_0),
    decreases s@.len() - start,
{
    let n = s.unicode_len();
    let ghost t = s@.subrange(start as int, n as int);
    let mut c: usize = start;
    while c < n && s.get_char(c) != ','
        invariant
            start <= c <= n,
            n == s@.len(),
            t == s@.subrange(start as int, n as int),
            forall|k: int| 0 <= k < c - start ==> t[k] != ',',
        decreases n - c,
    {
        c = c + 1;
    }
    proof {
        if c < n {
            assert(t[c - start] == ',');
        }
        lemma_find_char_first(t, ',', c - start);
    }
    if c == n {
        let r = parse_token(s, start, n, out);
        proof {
            assert(s@.subrange(start as int, n as int) == t);
        }
        r
    } else {
        proof {
            assert(t.subrange(0, c - start) =~= s@.subrange(start as int, c as int));
            assert(t.subrange(c - start + 1, t.len() as int) =~= s@.subrange(
                c as int + 1,
                n as int,
            ));
        }
        let ghost pre = out@;
        match parse_token(s, start, c, out) {
            Ok(()) => {
                let r = parse_tail(s, c + 1, out);
                proof {
                    if r is Ok {
                        assert(out@ =~= pre + (eval_token(t.subrange(0, c - start))->Ok_0
                            + eval_spec(t.subrange(c - start + 1, t.len() as int))->Ok_0));
                    }
                }
                r
            },
            Err(e) => Err(e),
        }
    }
}

/// Law: sorting is idempotent on statuses.  Whatever [`PortsStatus::sort`]
/// may produce from lists that are already ascending — its contract only
/// promises ascending lists with the same elements — is exactly the lists
/// it started from.
pub proof fn lemma_sort_noop(pre: PortsStatus, post: PortsStatus)
    requires
        sorted(pre.open_ports@),
        sorted(pre.closed_ports@),
        sorted(post.open_ports@),
        sorted(post.closed_ports@),
        post.open_ports@.to_multiset() == pre.open_ports@.to_multiset(),
        post.closed_ports@.to_multiset() == pre.closed_ports@.to_multiset(),
    ensures
        post.open_ports@ == pre.open_ports@,
        post.closed_ports@ == pre.closed_ports@,
{
    crate::sorting::lemma_sorted_unique(pre.open_ports@, post.open_ports@);
    crate::sorting::lemma_sorted_unique(pre.closed_ports@, post.closed_ports@);
}

/// An ordered sequence of target ports.  Duplicates and overlapping ranges
/// from the specification are preserved: the sweep probes a port once per
/// occurrence.
#[derive(Clone, Debug)]
pub struct Ports(pub Vec<u16>);

impl View for Ports {
    type V = Seq<u16>;

    open spec fn view(&self) -> Seq<u16> {
        self.0@
    }
}

impl Ports {
    /// Parses a comma-separated port specification: each token is a single
    /// decimal port or an inclusive `lower-upper` range, expanded in
    /// ascending order; token order and duplicates are kept.
    pub fn from_str(s: &str) -> (r: Result<Ports, ParseError>)
        ensures
            r is Ok ==> eval_spec(s@) is Ok && r->Ok_0@ == eval_spec(s@)->Ok_0,
            r is Err ==> eval_spec(s@) == Err::<Seq<u16>, ParseError>(r->Err_0),
    {
        let mut out: Vec<u16> = Vec::new();
        proof {
            assert(s@.subrange(0, s@.len() as int) =~= s@);
        }
        match parse_tail(s, 0, &mut out) {
            Ok(()) => Ok(Ports(out)),
            Err(e) => Err(e),
        }
    }

    /// Number of ports (occurrences, not distinct values).
    pub fn len(&self) -> (n: usize)
        ensures
            n == self@.len(),
    {
        self.0.len()
    }

    /// The port at position `i`.
    pub fn get(&self, i: usize) -> (p: u16)
        requires
            i < self@.len(),
        ensures
            p == self@[i as int],
    {
        self.0[i]
    }
}

/// Rendering of a whole status: open ports, a separating semicolon, then
/// closed ports, each list compacted into ranges.
pub open spec fn status_string(o: Seq<u16>, c: Seq<u16>) -> Seq<char> {
    seq!['o', 'p', 'e', 'n', ':', ' '] + fmt_ports(o) + seq![';'] + seq![
        'c',
        'l',
        'o',
        's',
        'e',
        'd',
        ':',
        ' ',
    ] + fmt_ports(c)
}

/// Open and closed ports recorded for one address, in completion order
/// until [`PortsStatus::sort`] puts each list in ascending order.
#[derive(Clone, Debug)]
pub struct PortsStatus {
    pub open_ports: Vec<u16>,
    pub closed_ports: Vec<u16>,
}

impl PortsStatus {
    /// A status with no outcomes yet; `num_ports` only sizes the buffers.
    pub fn new(num_ports: usize) -> (r: Self)
        ensures
            r.open_ports@ == Seq::<u16>::empty(),
            r.closed_ports@ == Seq::<u16>::empty(),
    {
        PortsStatus {
            open_ports: Vec::with_capacity(num_ports / 10),
            closed_ports: Vec::with_capacity(num_ports),
        }
    }

    /// Appends `port` to the open or the closed list, as `is_open` says;
    /// the other list is untouched.
    pub fn record(&mut self, port: u16, is_open: bool)
        ensures
            is_open ==> final(self).open_ports@ == old(self).open_ports@.push(port)
                && final(self).closed_ports@ == old(self).closed_ports@,
            !is_open ==> final(self).closed_ports@ == old(self).closed_ports@.push(port)
                && final(self).open_ports@ == old(self).open_ports@,
    {
        if is_open {
            self.open_ports.push(port);
        } else {
            self.closed_ports.push(port);
        }
    }

    /// Puts both lists in ascending order, keeping their elements.
    pub fn sort(&mut self)
        ensures
            sorted(final(self).open_ports@),
            sorted(final(self).closed_ports@),
            final(self).open_ports@.to_multiset() == old(self).open_ports@.to_multiset(),
            final(self).closed_ports@.to_multiset() == old(self).closed_ports@.to_multiset(),
    {
        sort_vec(&mut self.open_ports);
        sort_vec(&mut self.closed_ports);
    }

    /// Renders a sorted port list compactly: maximal runs of consecutive
    /// values collapse to `lo-hi`, lone values stay bare, and an empty list
    /// renders as `none`.
    pub fn fmt_vec(v: &Vec<u16>) -> (r: String)
        requires
            sorted(v@),
        ensures
            r@ == fmt_ports(v@),
    {
        let mut r = String::new();
        if v.len() == 0 {
            proof { reveal_strlit("none"); }
            r.append("none");
            proof {
                assert(r@ =~= fmt_ports(v@));
            }
        } else {
            fmt_from(v, 0, &mut r);
        }
        r
    }

    /// Renders the whole status, open ports first, then closed ones.
    pub fn to_status_string(&self) -> (r: String)
        requires
            sorted(self.open_ports@),
            sorted(self.closed_ports@),
        ensures
            r@ == status_string(self.open_ports@, self.closed_ports@),
    {
        let mut r = String::new();
        proof { reveal_strlit("open: "); }
        r.append("open: ");
        proof {
            assert(r@ =~= seq!['o', 'p', 'e', 'n', ':', ' ']);
        }
        let o = Self::fmt_vec(&self.open_ports);
        r.append(o.as_str());
        proof { reveal_strlit(";closed: "); }
        let ghost mid = r@;
        r.append(";closed: ");
        proof {
            assert(r@ =~= mid + seq![';'] + seq!['c', 'l', 'o', 's', 'e', 'd', ':', ' ']);
        }
        let c = Self::fmt_vec(&self.closed_ports);
        r.append(c.as_str());
        proof {
            assert(r@ =~= status_string(self.open_ports@, self.closed_ports@));
        }
        r
    }
}

} // verus!
