//! Local addresses and their text.

use crate::text::{decimal, hex_digit, hex_digit_of, join, join_spec, push_decimal, texts};
use vstd::prelude::*;

verus! {

/// An IPv4 address: four octets, most significant first.
#[derive(Copy, Clone, PartialEq, Eq, Debug)]
pub struct Ipv4Addr {
    pub octets: [u8; 4],
}

/// An IPv4 or an IPv6 address. The latter is eight segments of sixteen bits.
#[derive(Copy, Clone, PartialEq, Eq, Debug)]
pub enum IpAddr {
    V4(Ipv4Addr),
    V6([u16; 8]),
}

/// An address as plain values.
#[verifier::ext_equal]
pub enum IpView {
    V4(Seq<u8>),
    V6(Seq<u16>),
}

impl View for Ipv4Addr {
    type V = Seq<u8>;

    open spec fn view(&self) -> Seq<u8> {
        self.octets@
    }
}

impl View for IpAddr {
    type V = IpView;

    open spec fn view(&self) -> IpView {
        match *self {
            IpAddr::V4(a) => IpView::V4(a@),
            IpAddr::V6(s) => IpView::V6(s@),
        }
    }
}

/// The views of a sequence of addresses.
pub open spec fn ip_views(ips: Seq<IpAddr>) -> Seq<IpView> {
    Seq::new(ips.len(), |i: int| ips[i]@)
}

/// The IPv4 address `a.b.c.d`.
pub open spec fn v4(a: u8, b: u8, c: u8, d: u8) -> IpView {
    IpView::V4(seq![a, b, c, d])
}

impl Ipv4Addr {
    /// The address `a.b.c.d`.
    pub fn new(a: u8, b: u8, c: u8, d: u8) -> (r: Ipv4Addr)
        ensures
            r@ == seq![a, b, c, d],
    {
        let r = Ipv4Addr { octets: [a, b, c, d] };
        assert(r@ =~= seq![a, b, c, d]);
        r
    }

    /// Whether two addresses are one.
    pub fn same(&self, other: &Ipv4Addr) -> (r: bool)
        ensures
            r == (self@ == other@),
    {
        let r = self.octets[0] == other.octets[0] && self.octets[1] == other.octets[1] && self.octets[2]
            == other.octets[2] && self.octets[3] == other.octets[3];
        proof {
            if r {
                assert(self@ =~= other@);
            }
        }
        r
    }
}

impl IpAddr {
    /// Whether two addresses are one.
    pub fn same(&self, other: &IpAddr) -> (r: bool)
        ensures
            r == (self@ == other@),
    {
        match (self, other) {
            (IpAddr::V4(a), IpAddr::V4(b)) => a.same(b),
            (IpAddr::V6(a), IpAddr::V6(b)) => same_segments(a, b),
            _ => false,
        }
    }
}

/// Whether two sequences of segments are one.
fn same_segments(a: &[u16; 8], b: &[u16; 8]) -> (r: bool)
    ensures
        r == (a@ == b@),
{
    let mut i: usize = 0;
    while i < 8
        invariant
            i <= 8,
            forall|j: int| 0 <= j < i ==> a@[j] == b@[j],
        decreases 8 - i,
    {
        if a[i] != b[i] {
            assert(a@[i as int] != b@[i as int]);
            return false;
        }
        i = i + 1;
    }
    assert(a@ =~= b@);
    true
}

/// Whether `ips` holds `ip`.
pub fn has_ip(ips: &[IpAddr], ip: &IpAddr) -> (r: bool)
    ensures
        r == ip_views(ips@).contains(ip@),
{
    let mut i: usize = 0;
    while i < ips.len()
        invariant
            i <= ips@.len(),
            forall|j: int| 0 <= j < i ==> (#[trigger] ips@[j])@ != ip@,
        decreases ips@.len() - i,
    {
        if ips[i].same(ip) {
            assert(ip_views(ips@)[i as int] == ip@);
            return true;
        }
        i = i + 1;
    }
    false
}

// --------------------------------------------------------------------- text

/// Four decimal octets with dots between them.
pub open spec fn v4_text(o: Seq<u8>) -> Seq<char> {
    (decimal(o[0] as nat).push('.') + decimal(o[1] as nat)).push('.') + (decimal(o[2] as nat).push('.') + decimal(
        o[3] as nat,
    ))
}

/// `n` in lower-case hexadecimal, without leading zeros.
pub open spec fn hex_number(n: nat) -> Seq<char>
    decreases n,
{
    if n < 16 {
        seq![hex_digit(n as int)]
    } else {
        hex_number(n / 16).push(hex_digit((n % 16) as int))
    }
}

/// Segments in hexadecimal with colons between them.
pub open spec fn segments_text(s: Seq<u16>) -> Seq<char> {
    join_spec(Seq::new(s.len(), |i: int| hex_number(s[i] as nat)), ':')
}

/// Whether the `n` segments from `i` on are all zero.
pub open spec fn zero_run(s: Seq<u16>, i: int, n: int) -> bool {
    &&& 0 <= i
    &&& 0 <= n
    &&& i + n <= s.len()
    &&& forall|j: int| i <= j < i + n ==> s[j] == 0
}

/// Whether the `n` zero segments from `i` on are the first of the longest runs.
pub open spec fn longest_zero_run(s: Seq<u16>, i: int, n: int) -> bool {
    &&& zero_run(s, i, n)
    &&& forall|j: int, m: int| #[trigger] zero_run(s, j, m) ==> m < n || (m == n && i <= j)
}

/// Whether the address stands for an IPv4 address.
pub open spec fn is_v4_mapped(s: Seq<u16>) -> bool {
    &&& s.len() == 8
    &&& forall|j: int| 0 <= j < 5 ==> s[j] == 0
    &&& s[5] == 0xffff
}

/// The IPv4 address that a mapped address stands for.
pub open spec fn mapped_v4(s: Seq<u16>) -> Seq<u8> {
    seq![(s[6] / 256) as u8, (s[6] % 256) as u8, (s[7] / 256) as u8, (s[7] % 256) as u8]
}

/// The text of an IPv6 address: a mapped one shows the IPv4 address; otherwise
/// the first of the longest runs of two or more zero segments becomes `::`.
pub open spec fn v6_text(s: Seq<u16>) -> Seq<char> {
    if is_v4_mapped(s) {
        "::ffff:"@ + v4_text(mapped_v4(s))
    } else {
        let (i, n) = choose|i: int, n: int| longest_zero_run(s, i, n);
        if n > 1 {
            segments_text(s.take(i)) + "::"@ + segments_text(s.skip(i + n))
        } else {
            segments_text(s)
        }
    }
}

/// The text of an address.
pub open spec fn ip_text(ip: IpView) -> Seq<char> {
    match ip {
        IpView::V4(o) => v4_text(o),
        IpView::V6(s) => v6_text(s),
    }
}

/// Appends `n` in lower-case hexadecimal.
fn push_hex_number(s: &mut String, n: u16)
    ensures
        final(s)@ == old(s)@ + hex_number(n as nat),
    decreases n,
{
    if n < 16 {
        s.push(hex_digit_of(n as u8));
        assert(s@ =~= old(s)@ + hex_number(n as nat));
    } else {
        push_hex_number(s, n / 16);
        s.push(hex_digit_of((n % 16) as u8));
        assert(s@ =~= old(s)@ + hex_number(n as nat));
    }
}

/// The segments `s[from..to]` with colons between them.
fn segments_to_string(s: &[u16; 8], from: usize, to: usize) -> (r: String)
    requires
        from <= to <= 8,
    ensures
        r@ == segments_text(s@.subrange(from as int, to as int)),
{
    let ghost part = s@.subrange(from as int, to as int);
    let mut parts: Vec<String> = Vec::new();
    let mut i: usize = from;
    while i < to
        invariant
            from <= i <= to <= 8,
            part == s@.subrange(from as int, to as int),
            parts@.len() == i - from,
            forall|j: int| 0 <= j < parts@.len() ==> (#[trigger] parts@[j])@ == hex_number(part[j] as nat),
        decreases to - i,
    {
        let mut t = String::new();
        push_hex_number(&mut t, s[i]);
        assert(t@ =~= hex_number(s@[i as int] as nat));
        assert(part[i - from] == s@[i as int]);
        parts.push(t);
        i = i + 1;
    }
    assert(texts(parts@) =~= Seq::new(part.len(), |i: int| hex_number(part[i] as nat)));
    join(&parts, ':')
}

/// The first of the longest runs of zero segments: where it starts, and its
/// length.
fn find_zero_run(s: &[u16; 8]) -> (r: (usize, usize))
    ensures
        longest_zero_run(s@, r.0 as int, r.1 as int),
{
    let mut best: usize = 0;
    let mut best_len: usize = 0;
    let mut cur_len: usize = 0;
    let mut i: usize = 0;
    while i < 8
        invariant
            i <= 8,
            cur_len <= i,
            best + best_len <= i,
            cur_len <= best_len,
            zero_run(s@, best as int, best_len as int),
            zero_run(s@, i - cur_len, cur_len as int),
            cur_len < i ==> s@[i - cur_len - 1] != 0,
            forall|j: int, m: int| #[trigger]
                zero_run(s@, j, m) && j + m <= i && m > 0 ==> m < best_len || (m == best_len && best <= j),
            best_len == 0 ==> best == 0,
        decreases 8 - i,
    {
        let ghost (b0, bl0, c0) = (best, best_len, cur_len);
        if s[i] == 0 {
            cur_len = cur_len + 1;
            if cur_len > best_len {
                best = i + 1 - cur_len;
                best_len = cur_len;
            }
        } else {
            cur_len = 0;
        }
        assert forall|j: int, m: int| #[trigger] zero_run(s@, j, m) && j + m <= i + 1 && m > 0 implies m < best_len || (m
            == best_len && best <= j) by {
            if j + m <= i {
                assert(m < bl0 || (m == bl0 && b0 <= j));
            } else {
                assert(s@[i as int] == 0);
                if j < i - c0 {
                    assert(s@[i - c0 - 1] == 0);
                }
                assert(m <= cur_len);
                if m == cur_len {
                    assert(j == i + 1 - cur_len);
                }
            }
        }
        i = i + 1;
    }
    assert forall|j: int, m: int| #[trigger] zero_run(s@, j, m) implies m < best_len || (m == best_len && best <= j) by {
        if m > 0 {
            assert(j + m <= 8);
        }
    }
    (best, best_len)
}

/// There is one first longest run.
proof fn lemma_zero_run_unique(s: Seq<u16>, i: int, n: int)
    requires
        longest_zero_run(s, i, n),
    ensures
        (choose|i: int, n: int| longest_zero_run(s, i, n)) == (i, n),
{
    let (j, m) = choose|i: int, n: int| longest_zero_run(s, i, n);
    assert(longest_zero_run(s, j, m));
    assert(zero_run(s, j, m) && zero_run(s, i, n));
}

impl Ipv4Addr {
    /// Dotted decimal.
    pub fn to_string(&self) -> (s: String)
        ensures
            s@ == v4_text(self@),
    {
        let mut s = String::new();
        push_decimal(&mut s, self.octets[0] as u32);
        s.push('.');
        push_decimal(&mut s, self.octets[1] as u32);
        s.push('.');
        push_decimal(&mut s, self.octets[2] as u32);
        s.push('.');
        push_decimal(&mut s, self.octets[3] as u32);
        assert(s@ =~= v4_text(self@));
        s
    }
}

impl IpAddr {
    /// The address in its usual notation.
    pub fn to_string(&self) -> (s: String)
        ensures
            s@ == ip_text(self@),
    {
        match self {
            IpAddr::V4(a) => a.to_string(),
            IpAddr::V6(s) => {
                if s[0] == 0 && s[1] == 0 && s[2] == 0 && s[3] == 0 && s[4] == 0 && s[5] == 0xffff {
                    let a = Ipv4Addr::new(
                        (s[6] / 256) as u8,
                        (s[6] % 256) as u8,
                        (s[7] / 256) as u8,
                        (s[7] % 256) as u8,
                    );
                    let mut out = "::ffff:".to_owned();
                    out.append(a.to_string().as_str());
                    return out;
                }
                let (i, n) = find_zero_run(s);
                proof {
                    lemma_zero_run_unique(s@, i as int, n as int);
                }
                if n > 1 {
                    let mut out = segments_to_string(s, 0, i);
                    out.append("::");
                    out.append(segments_to_string(s, i + n, 8).as_str());
                    assert(s@.take(i as int) =~= s@.subrange(0, i as int));
                    assert(s@.skip(i + n) =~= s@.subrange(i + n, 8));
                    out
                } else {
                    assert(s@ =~= s@.subrange(0, 8));
                    segments_to_string(s, 0, 8)
                }
            },
        }
    }
}

// -------------------------------------------------------------------- lemmas

/// A character that an address is written with.
pub open spec fn is_ip_char(c: char) -> bool {
    '0' <= c <= '9' || 'a' <= c <= 'f' || c == '.' || c == ':'
}

proof fn lemma_decimal_chars(n: nat)
    ensures
        decimal(n).len() > 0,
        forall|i: int| 0 <= i < decimal(n).len() ==> is_ip_char(#[trigger] decimal(n)[i]),
    decreases n,
{
    if n >= 10 {
        lemma_decimal_chars(n / 10);
        let d = decimal(n / 10);
        assert forall|i: int| 0 <= i < decimal(n).len() implies is_ip_char(#[trigger] decimal(n)[i]) by {
            if i < d.len() {
                assert(decimal(n)[i] == d[i]);
            }
        }
    }
}

proof fn lemma_hex_number_chars(n: nat)
    ensures
        hex_number(n).len() > 0,
        forall|i: int| 0 <= i < hex_number(n).len() ==> is_ip_char(#[trigger] hex_number(n)[i]),
    decreases n,
{
    if n >= 16 {
        lemma_hex_number_chars(n / 16);
        let d = hex_number(n / 16);
        assert forall|i: int| 0 <= i < hex_number(n).len() implies is_ip_char(#[trigger] hex_number(n)[i]) by {
            if i < d.len() {
                assert(hex_number(n)[i] == d[i]);
            }
        }
    }
}

proof fn lemma_join_chars(parts: Seq<Seq<char>>)
    requires
        forall|i: int|
            0 <= i < parts.len() ==> (#[trigger] parts[i]).len() > 0 && forall|j: int|
                0 <= j < parts[i].len() ==> is_ip_char(#[trigger] parts[i][j]),
    ensures
        parts.len() > 0 ==> join_spec(parts, ':').len() > 0,
        forall|i: int| 0 <= i < join_spec(parts, ':').len() ==> is_ip_char(#[trigger] join_spec(parts, ':')[i]),
    decreases parts.len(),
{
    if parts.len() > 1 {
        let init = parts.drop_last();
        assert forall|i: int| 0 <= i < init.len() implies (#[trigger] init[i]).len() > 0 && forall|j: int|
            0 <= j < init[i].len() ==> is_ip_char(#[trigger] init[i][j]) by {
            assert(init[i] == parts[i]);
        }
        lemma_join_chars(init);
        let a = join_spec(init, ':');
        let all = join_spec(parts, ':');
        assert forall|i: int| 0 <= i < all.len() implies is_ip_char(#[trigger] all[i]) by {
            if i < a.len() {
                assert(all[i] == a[i]);
            } else if i > a.len() {
                assert(all[i] == parts[parts.len() - 1][i - a.len() - 1]);
            }
        }
    }
}

proof fn lemma_segments_chars(s: Seq<u16>)
    ensures
        s.len() > 0 ==> segments_text(s).len() > 0,
        forall|i: int| 0 <= i < segments_text(s).len() ==> is_ip_char(#[trigger] segments_text(s)[i]),
{
    let parts = Seq::new(s.len(), |i: int| hex_number(s[i] as nat));
    assert forall|i: int| 0 <= i < parts.len() implies (#[trigger] parts[i]).len() > 0 && forall|j: int|
        0 <= j < parts[i].len() ==> is_ip_char(#[trigger] parts[i][j]) by {
        lemma_hex_number_chars(s[i] as nat);
    }
    lemma_join_chars(parts);
}

proof fn lemma_v4_chars(o: Seq<u8>)
    requires
        o.len() == 4,
    ensures
        v4_text(o).len() > 0,
        forall|i: int| 0 <= i < v4_text(o).len() ==> is_ip_char(#[trigger] v4_text(o)[i]),
{
    lemma_decimal_chars(o[0] as nat);
    lemma_decimal_chars(o[1] as nat);
    lemma_decimal_chars(o[2] as nat);
    lemma_decimal_chars(o[3] as nat);
    let (a, b, c, d) = (decimal(o[0] as nat), decimal(o[1] as nat), decimal(o[2] as nat), decimal(o[3] as nat));
    let t = v4_text(o);
    assert forall|i: int| 0 <= i < t.len() implies is_ip_char(#[trigger] t[i]) by {
        let (p, q, r) = (a.len() as int, a.len() + 1 + b.len(), a.len() + b.len() + c.len() + 2);
        if i < p {
            assert(t[i] == a[i]);
        } else if p < i < q {
            assert(t[i] == b[i - p - 1]);
        } else if q < i < r {
            assert(t[i] == c[i - q - 1]);
        } else if r < i {
            assert(t[i] == d[i - r - 1]);
        }
    }
}

/// The text of an address is not empty, and holds digits, dots and colons
/// alone.
pub proof fn lemma_ip_text(ip: IpView)
    requires
        match ip {
            IpView::V4(o) => o.len() == 4,
            IpView::V6(s) => s.len() == 8,
        },
    ensures
        ip_text(ip).len() > 0,
        forall|i: int| 0 <= i < ip_text(ip).len() ==> is_ip_char(#[trigger] ip_text(ip)[i]),
{
    match ip {
        IpView::V4(o) => {
            lemma_v4_chars(o);
        },
        IpView::V6(s) => {
            reveal_strlit("::ffff:");
            reveal_strlit("::");
            let t = v6_text(s);
            if is_v4_mapped(s) {
                let m = v4_text(mapped_v4(s));
                lemma_v4_chars(mapped_v4(s));
                assert forall|i: int| 0 <= i < t.len() implies is_ip_char(#[trigger] t[i]) by {
                    if i >= 7 {
                        assert(t[i] == m[i - 7]);
                    }
                }
            } else {
                let (i, n) = choose|i: int, n: int| longest_zero_run(s, i, n);
                let (a, b) = (segments_text(s.take(i)), segments_text(s.skip(i + n)));
                lemma_segments_chars(s.take(i));
                lemma_segments_chars(s.skip(i + n));
                lemma_segments_chars(s);
                if n > 1 {
                    assert forall|j: int| 0 <= j < t.len() implies is_ip_char(#[trigger] t[j]) by {
                        if j < a.len() {
                            assert(t[j] == a[j]);
                        } else if j >= a.len() + 2 {
                            assert(t[j] == b[j - a.len() - 2]);
                        }
                    }
                }
            }
        },
    }
}

// --------------------------------------------------------------------- laws

/// The text of an IPv4 address is its four octets in decimal, with dots between
/// them.
pub proof fn law_v4_text_is_four_numbers(a: u8, b: u8, c: u8, d: u8)
    ensures
        ip_text(v4(a, b, c, d)) == decimal(a as nat) + seq!['.'] + decimal(b as nat) + seq!['.'] + decimal(c as nat) + seq!['.']
            + decimal(d as nat),
{
    assert(ip_text(v4(a, b, c, d)) =~= decimal(a as nat) + seq!['.'] + decimal(b as nat) + seq!['.'] + decimal(c as nat)
        + seq!['.'] + decimal(d as nat));
}

/// Whether `n` segments from `i` on are there and are zero.
pub open spec fn zeros(s: Seq<u16>, i: int, n: int) -> bool {
    0 <= i && 0 <= n && i + n <= s.len() && forall|j: int| i <= j < i + n ==> s[j] == 0
}

/// In the text of an IPv6 address that stands for no IPv4 address the first of
/// the longest runs of zero segments is left out, if it is longer than one, and
/// the others are in hexadecimal with colons between them.
pub proof fn law_v6_text_leaves_out_zeros(s: Seq<u16>, i: int, n: int)
    requires
        s.len() == 8,
        !(s[0] == 0 && s[1] == 0 && s[2] == 0 && s[3] == 0 && s[4] == 0 && s[5] == 0xffff),
        zeros(s, i, n),
        forall|j: int, m: int| #[trigger] zeros(s, j, m) ==> m < n || (m == n && i <= j),
    ensures
        n > 1 ==> ip_text(IpView::V6(s)) == segments_text(s.take(i)) + "::"@ + segments_text(s.skip(i + n)),
        n <= 1 ==> ip_text(IpView::V6(s)) == segments_text(s),
{
    assert(!is_v4_mapped(s));
    assert forall|j: int, m: int| #[trigger] zero_run(s, j, m) implies m < n || (m == n && i <= j) by {
        assert(zeros(s, j, m));
    }
    assert(longest_zero_run(s, i, n));
    lemma_zero_run_unique(s, i, n);
}

/// An address that stands for an IPv4 address shows it.
pub proof fn law_mapped_address_shows_v4(a: u8, b: u8, c: u8, d: u8)
    ensures
        ip_text(IpView::V6(seq![0u16, 0, 0, 0, 0, 0xffff, (a * 256 + b) as u16, (c * 256 + d) as u16])) == "::ffff:"@ + ip_text(
            v4(a, b, c, d),
        ),
{
    let s = seq![0u16, 0, 0, 0, 0, 0xffff, (a * 256 + b) as u16, (c * 256 + d) as u16];
    assert(is_v4_mapped(s));
    assert(mapped_v4(s) =~= seq![a, b, c, d]);
}

/// The number that hexadecimal digits stand for.
pub open spec fn hex_value(digits: Seq<char>) -> int
    decreases digits.len(),
{
    if digits.len() == 0 {
        0
    } else {
        16 * hex_value(digits.drop_last()) + crate::text::digit_value(digits.last())
    }
}

/// A segment in hexadecimal reads back as itself, without a leading zero unless
/// it is zero; one segment stands alone, and one more stands behind a colon.
pub proof fn law_segments_read_back(n: u16, s: Seq<u16>)
    ensures
        hex_value(hex_number(n as nat)) == n,
        n > 0 ==> hex_number(n as nat)[0] != '0',
        segments_text(seq![n]) == hex_number(n as nat),
        segments_text(seq![]).len() == 0,
        s.len() > 0 ==> segments_text(s.push(n)) == segments_text(s) + seq![':'] + hex_number(n as nat),
{
    lemma_hex_value(n as nat);
    let one = Seq::new(seq![n].len(), |i: int| hex_number(seq![n][i] as nat));
    assert(one =~= seq![hex_number(n as nat)]);
    let t = s.push(n);
    let (a, b) = (
        Seq::new(s.len(), |i: int| hex_number(s[i] as nat)),
        Seq::new(t.len(), |i: int| hex_number(t[i] as nat)),
    );
    assert(b.drop_last() =~= a);
    if s.len() > 0 {
        assert(segments_text(t) =~= segments_text(s) + seq![':'] + hex_number(n as nat));
    }
}

proof fn lemma_hex_value(n: nat)
    ensures
        hex_value(hex_number(n)) == n,
        hex_number(n).len() > 0,
        n > 0 ==> hex_number(n)[0] != '0',
    decreases n,
{
    let d = hex_number(n);
    if n < 16 {
        assert(d.drop_last() =~= Seq::<char>::empty());
        assert(hex_value(d.drop_last()) == 0);
    } else {
        lemma_hex_value(n / 16);
        assert(d.drop_last() =~= hex_number(n / 16));
        assert(d[0] == hex_number(n / 16)[0]);
    }
}

}
