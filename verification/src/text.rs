//! Text as a sequence of characters: trimming, splitting, joining and digits.

use vstd::prelude::*;

verus! {

/// `String::push` appends one character and changes nothing else.
pub assume_specification[ String::push ](s: &mut String, c: char)
    ensures
        final(s)@ == old(s)@.push(c),
;

// ------------------------------------------------------------- whitespace

/// The characters with the Unicode `White_Space` property.
pub open spec fn is_space(c: char) -> bool {
    let n = c as u32;
    ||| 0x09 <= n <= 0x0d
    ||| n == 0x20
    ||| n == 0x85
    ||| n == 0xa0
    ||| n == 0x1680
    ||| 0x2000 <= n <= 0x200a
    ||| n == 0x2028
    ||| n == 0x2029
    ||| n == 0x202f
    ||| n == 0x205f
    ||| n == 0x3000
}

/// Whether `c` is whitespace.
pub fn char_is_space(c: char) -> (r: bool)
    ensures
        r == is_space(c),
{
    let n: u32 = c as u32;
    (0x09 <= n && n <= 0x0d) || n == 0x20 || n == 0x85 || n == 0xa0 || n == 0x1680 || (0x2000 <= n
        && n <= 0x200a) || n == 0x2028 || n == 0x2029 || n == 0x202f || n == 0x205f || n == 0x3000
}

/// `s` without its leading whitespace.
pub open spec fn trim_start(s: Seq<char>) -> Seq<char>
    decreases s.len(),
{
    if s.len() > 0 && is_space(s[0]) {
        trim_start(s.drop_first())
    } else {
        s
    }
}

/// `s` without its trailing whitespace.
pub open spec fn trim_end(s: Seq<char>) -> Seq<char>
    decreases s.len(),
{
    if s.len() > 0 && is_space(s.last()) {
        trim_end(s.drop_last())
    } else {
        s
    }
}

/// `s` without whitespace at either end.
pub open spec fn trimmed(s: Seq<char>) -> Seq<char> {
    trim_end(trim_start(s))
}

/// A text with no whitespace at either end is what trimming leaves of it.
pub proof fn lemma_trimmed_is_same(s: Seq<char>)
    requires
        s.len() > 0 ==> !is_space(s[0]) && !is_space(s.last()),
    ensures
        trimmed(s) == s,
{
}

proof fn lemma_trim_start_pad(pad: Seq<char>, s: Seq<char>)
    requires
        forall|i: int| 0 <= i < pad.len() ==> is_space(#[trigger] pad[i]),
    ensures
        trim_start(pad + s) == trim_start(s),
    decreases pad.len(),
{
    if pad.len() == 0 {
        assert(pad + s =~= s);
    } else {
        lemma_trim_start_pad(pad.drop_first(), s);
        assert((pad + s)[0] == pad[0]);
        assert((pad + s).drop_first() =~= pad.drop_first() + s);
    }
}

proof fn lemma_trim_end_pad(s: Seq<char>, pad: Seq<char>)
    requires
        forall|i: int| 0 <= i < pad.len() ==> is_space(#[trigger] pad[i]),
    ensures
        trim_end(s + pad) == trim_end(s),
    decreases pad.len(),
{
    if pad.len() == 0 {
        assert(s + pad =~= s);
    } else {
        lemma_trim_end_pad(s, pad.drop_last());
        assert((s + pad).last() == pad.last());
        assert((s + pad).drop_last() =~= s + pad.drop_last());
    }
}

proof fn lemma_trim_start_before(s: Seq<char>, pad: Seq<char>)
    requires
        forall|i: int| 0 <= i < pad.len() ==> is_space(#[trigger] pad[i]),
    ensures
        trim_end(trim_start(s + pad)) == trim_end(trim_start(s)),
    decreases s.len(),
{
    if s.len() == 0 {
        lemma_trim_start_pad(pad, Seq::<char>::empty());
        assert(s + pad =~= pad + Seq::<char>::empty());
        assert(s =~= Seq::<char>::empty());
    } else if is_space(s[0]) {
        lemma_trim_start_before(s.drop_first(), pad);
        assert((s + pad).drop_first() =~= s.drop_first() + pad);
    } else {
        lemma_trim_end_pad(s, pad);
    }
}

/// Whitespace around a text makes no difference to what trimming leaves.
pub proof fn lemma_trim_pads(before: Seq<char>, s: Seq<char>, after: Seq<char>)
    requires
        forall|i: int| 0 <= i < before.len() ==> is_space(#[trigger] before[i]),
        forall|i: int| 0 <= i < after.len() ==> is_space(#[trigger] after[i]),
    ensures
        trimmed(before + s + after) == trimmed(s),
{
    assert(before + s + after =~= before + (s + after));
    lemma_trim_start_pad(before, s + after);
    lemma_trim_start_before(s, after);
}

// -------------------------------------------------------------- conversions

/// The characters of `s`, in order.
pub fn to_chars(s: &str) -> (v: Vec<char>)
    ensures
        v@ == s@,
{
    let mut v: Vec<char> = Vec::new();
    for c in it: s.chars()
        invariant
            v@ == it.seq().take(it.index()),
            it.seq() == s@,
    {
        v.push(c);
    }
    v
}

/// The text made of `v[from..to]`.
pub fn from_chars(v: &Vec<char>, from: usize, to: usize) -> (s: String)
    requires
        from <= to <= v@.len(),
    ensures
        s@ == v@.subrange(from as int, to as int),
{
    let mut s = String::new();
    let mut i: usize = from;
    while i < to
        invariant
            from <= i <= to <= v@.len(),
            s@ == v@.subrange(from as int, i as int),
        decreases to - i,
    {
        s.push(v[i]);
        i = i + 1;
        assert(v@.subrange(from as int, i as int) =~= v@.subrange(from as int, i - 1).push(v@[i - 1]));
    }
    s
}

/// Whether two texts hold the same characters.
pub fn same_text(a: &str, b: &str) -> (r: bool)
    ensures
        r == (a@ == b@),
{
    let x = a.to_owned();
    let y = b.to_owned();
    x == y
}

/// Whether a text holds no character.
pub fn is_empty(s: &str) -> (r: bool)
    ensures
        r == (s@.len() == 0),
{
    to_chars(s).len() == 0
}

/// The characters of an optional text.
pub open spec fn opt_text(o: Option<String>) -> Option<Seq<char>> {
    match o {
        Some(s) => Some(s@),
        None => None,
    }
}

/// A copy of an optional text.
pub fn copy_opt(o: &Option<String>) -> (r: Option<String>)
    ensures
        opt_text(r) == opt_text(*o),
{
    match o {
        Some(s) => Some(s.clone()),
        None => None,
    }
}

/// Whether an optional text is there and equals `s`.
pub fn opt_is(o: &Option<String>, s: &str) -> (r: bool)
    ensures
        r == (opt_text(*o) == Some(s@)),
{
    match o {
        Some(t) => same_text(t.as_str(), s),
        None => false,
    }
}

/// `s` without whitespace at either end.
pub fn trim(s: &str) -> (r: String)
    ensures
        r@ == trimmed(s@),
{
    let v = to_chars(s);
    let n = v.len();
    let mut a: usize = 0;
    assert(v@.skip(0) =~= v@);
    while a < n && char_is_space(v[a])
        invariant
            a <= n == v@.len(),
            trim_start(v@) == trim_start(v@.skip(a as int)),
        decreases n - a,
    {
        assert(v@.skip(a as int).drop_first() =~= v@.skip(a + 1));
        a = a + 1;
    }
    assert(trim_start(v@) == v@.skip(a as int));
    let ghost t = v@.skip(a as int);
    let mut b: usize = n;
    assert(t.take(n - a) =~= t);
    while b > a && char_is_space(v[b - 1])
        invariant
            a <= b <= n == v@.len(),
            t == v@.skip(a as int),
            trim_end(t) == trim_end(t.take(b - a)),
        decreases b,
    {
        assert(t.take(b - a).drop_last() =~= t.take(b - a - 1));
        assert(t.take(b - a).last() == v@[b - 1]);
        b = b - 1;
    }
    assert(trim_end(t) == t.take(b - a)) by {
        if b > a {
            assert(t.take(b - a).last() == v@[b - 1]);
        }
    }
    assert(t.take(b - a) =~= v@.subrange(a as int, b as int));
    from_chars(&v, a, b)
}


// -------------------------------------------------------------- splitting

/// The position of the first `sep` in `s`, or the length of `s` without one.
pub open spec fn find_char(s: Seq<char>, sep: char) -> int
    decreases s.len(),
{
    if s.len() == 0 || s[0] == sep {
        0
    } else {
        1 + find_char(s.drop_first(), sep)
    }
}

/// `find_char` is where the first separator stands.
pub proof fn lemma_find_char(s: Seq<char>, sep: char)
    ensures
        0 <= find_char(s, sep) <= s.len(),
        find_char(s, sep) < s.len() ==> s[find_char(s, sep)] == sep,
        forall|i: int| 0 <= i < find_char(s, sep) ==> s[i] != sep,
    decreases s.len(),
{
    if s.len() > 0 && s[0] != sep {
        let r = s.drop_first();
        lemma_find_char(r, sep);
        assert forall|i: int| 0 <= i < find_char(s, sep) implies s[i] != sep by {
            if i > 0 {
                assert(s[i] == r[i - 1]);
            }
        }
    }
}

/// A position whose character is `sep`, with none before it, is the first one.
pub proof fn lemma_find_char_at(s: Seq<char>, sep: char, k: int)
    requires
        0 <= k <= s.len(),
        k < s.len() ==> s[k] == sep,
        forall|i: int| 0 <= i < k ==> s[i] != sep,
    ensures
        find_char(s, sep) == k,
{
    lemma_find_char(s, sep);
    let f = find_char(s, sep);
    if f < k {
        assert(s[f] != sep);
    } else if k < f {
        assert(s[k] != sep);
    }
}

/// The position of the first `sep` at or after `from`, or the end.
pub fn find_from(v: &Vec<char>, sep: char, from: usize) -> (k: usize)
    requires
        from <= v@.len(),
    ensures
        from <= k <= v@.len(),
        k - from == find_char(v@.skip(from as int), sep),
        k < v@.len() ==> v@[k as int] == sep,
        forall|i: int| from <= i < k ==> v@[i] != sep,
{
    let mut k: usize = from;
    while k < v.len() && v[k] != sep
        invariant
            from <= k <= v@.len(),
            forall|i: int| from <= i < k ==> v@[i] != sep,
        decreases v@.len() - k,
    {
        k = k + 1;
    }
    proof {
        lemma_find_char_at(v@.skip(from as int), sep, k - from);
    }
    k
}

/// What stands before and after the first `sep`.
pub open spec fn split_once_spec(s: Seq<char>, sep: char) -> Option<(Seq<char>, Seq<char>)> {
    let k = find_char(s, sep);
    if k < s.len() {
        Some((s.take(k), s.skip(k + 1)))
    } else {
        None
    }
}

/// Splits `s` at the first `sep`, which belongs to neither half.
pub fn split_once(s: &str, sep: char) -> (r: Option<(String, String)>)
    ensures
        match r {
            Some((a, b)) => split_once_spec(s@, sep) == Some((a@, b@)),
            None => split_once_spec(s@, sep) is None,
        },
{
    let v = to_chars(s);
    let k = find_from(&v, sep, 0);
    assert(v@.skip(0) =~= v@);
    if k < v.len() {
        assert(s@.take(k as int) =~= v@.subrange(0, k as int));
        assert(s@.skip(k + 1) =~= v@.subrange(k + 1, v@.len() as int));
        Some((from_chars(&v, 0, k), from_chars(&v, k + 1, v.len())))
    } else {
        None
    }
}

/// Whether `c` occurs in `s`.
pub fn has_char(s: &str, c: char) -> (r: bool)
    ensures
        r == s@.contains(c),
{
    let v = to_chars(s);
    let k = find_from(&v, c, 0);
    if k < v.len() {
        assert(s@[k as int] == c);
        true
    } else {
        assert(!s@.contains(c));
        false
    }
}

// -------------------------------------------------------------- joining

/// `parts` with `sep` between neighbours.
pub open spec fn join_spec(parts: Seq<Seq<char>>, sep: char) -> Seq<char>
    decreases parts.len(),
{
    if parts.len() == 0 {
        seq![]
    } else if parts.len() == 1 {
        parts[0]
    } else {
        join_spec(parts.drop_last(), sep).push(sep) + parts.last()
    }
}

/// The views of a sequence of texts.
pub open spec fn texts(v: Seq<String>) -> Seq<Seq<char>> {
    Seq::new(v.len(), |i: int| v[i]@)
}

/// Joins `parts` with `sep` between neighbours.
pub fn join(parts: &Vec<String>, sep: char) -> (s: String)
    ensures
        s@ == join_spec(texts(parts@), sep),
{
    let ghost all = texts(parts@);
    let mut s = String::new();
    let mut i: usize = 0;
    while i < parts.len()
        invariant
            i <= parts@.len(),
            all == texts(parts@),
            s@ == join_spec(all.take(i as int), sep),
        decreases parts@.len() - i,
    {
        if i > 0 {
            s.push(sep);
        }
        s.append(parts[i].as_str());
        assert(all.take(i + 1).drop_last() =~= all.take(i as int));
        assert(all.take(i + 1).last() == parts@[i as int]@);
        if i == 0 {
            assert(s@ =~= parts@[0]@);
            assert(all.take(1)[0] == parts@[0]@);
        }
        i = i + 1;
    }
    assert(all.take(parts@.len() as int) =~= all);
    s
}

// -------------------------------------------------------------------- lines

/// A line without the carriage return that ends it, if one does.
pub open spec fn chomp(line: Seq<char>) -> Seq<char> {
    if line.len() > 0 && line.last() == '\r' {
        line.drop_last()
    } else {
        line
    }
}

/// The lines of `s`. A line ends with `\n`, or with `\r\n`; the last one may
/// lack its end and is then kept as it stands.
pub open spec fn lines_of(s: Seq<char>) -> Seq<Seq<char>>
    decreases s.len(),
{
    if s.len() == 0 {
        seq![]
    } else {
        let k = find_char(s, '\n');
        proof {
            lemma_find_char(s, '\n');
        }
        if k < s.len() {
            seq![chomp(s.take(k))] + lines_of(s.skip(k + 1))
        } else {
            seq![s]
        }
    }
}

/// Every line with `\n` behind it.
pub open spec fn unlines(lines: Seq<Seq<char>>) -> Seq<char>
    decreases lines.len(),
{
    if lines.len() == 0 {
        seq![]
    } else {
        lines[0].push('\n') + unlines(lines.drop_first())
    }
}

/// The lines of a text.
pub fn lines(s: &str) -> (r: Vec<String>)
    ensures
        texts(r@) == lines_of(s@),
{
    let v = to_chars(s);
    let n = v.len();
    let mut out: Vec<String> = Vec::new();
    let mut at: usize = 0;
    assert(v@.skip(0) =~= v@);
    assert(texts(out@) + lines_of(v@) =~= lines_of(v@));
    while at < n
        invariant
            at <= n == v@.len(),
            texts(out@) + lines_of(v@.skip(at as int)) == lines_of(v@),
        decreases n - at,
    {
        let ghost rest = v@.skip(at as int);
        let ghost before = texts(out@);
        let k = find_from(&v, '\n', at);
        if k < n {
            let end: usize = if k > at && v[k - 1] == '\r' {
                k - 1
            } else {
                k
            };
            out.push(from_chars(&v, at, end));
            proof {
                let line = rest.take(k - at);
                assert(line.len() > 0 ==> line.last() == v@[k - 1]);
                assert(chomp(line) =~= v@.subrange(at as int, end as int));
                assert(rest.skip(k - at + 1) =~= v@.skip(k + 1));
                assert(texts(out@) =~= before.push(chomp(line)));
                assert(texts(out@) + lines_of(v@.skip(k + 1)) =~= before + (seq![chomp(line)] + lines_of(v@.skip(k + 1))));
            }
            at = k + 1;
        } else {
            out.push(from_chars(&v, at, n));
            proof {
                assert(rest =~= v@.subrange(at as int, n as int));
                assert(texts(out@) =~= before.push(rest));
                assert(v@.skip(n as int) =~= Seq::<char>::empty());
                assert(texts(out@) + lines_of(v@.skip(n as int)) =~= before + seq![rest]);
            }
            at = n;
        }
    }
    assert(v@.skip(n as int) =~= Seq::<char>::empty());
    assert(texts(out@) + lines_of(v@.skip(n as int)) =~= texts(out@));
    out
}

/// A text that ends a line, or is empty, can be split off in front.
pub proof fn lemma_lines_concat(a: Seq<char>, b: Seq<char>)
    requires
        a.len() == 0 || a.last() == '\n',
    ensures
        lines_of(a + b) == lines_of(a) + lines_of(b),
    decreases a.len(),
{
    if a.len() == 0 {
        assert(a + b =~= b);
        assert(lines_of(a) + lines_of(b) =~= lines_of(b));
    } else {
        let k = find_char(a, '\n');
        lemma_find_char(a, '\n');
        if k == a.len() {
            assert(a[a.len() - 1] != '\n');
        }
        assert forall|i: int| 0 <= i < k implies (a + b)[i] != '\n' by {
            assert((a + b)[i] == a[i]);
        }
        lemma_find_char_at(a + b, '\n', k);
        assert((a + b).take(k) =~= a.take(k));
        assert((a + b).skip(k + 1) =~= a.skip(k + 1) + b);
        let rest = a.skip(k + 1);
        assert(rest.len() > 0 ==> rest.last() == a.last());
        lemma_lines_concat(rest, b);
        assert(lines_of(a + b) =~= seq![chomp(a.take(k))] + (lines_of(rest) + lines_of(b)));
        assert(lines_of(a + b) =~= lines_of(a) + lines_of(b));
    }
}

/// Whether `line` is one line: it holds no line end, and no carriage return
/// ends it.
pub open spec fn is_line(line: Seq<char>) -> bool {
    &&& !line.contains('\n')
    &&& chomp(line) == line
}

/// One line with its end reads back as itself.
pub proof fn lemma_one_line(line: Seq<char>)
    requires
        !line.contains('\n'),
    ensures
        lines_of(line.push('\n')) == seq![chomp(line)],
{
    let s = line.push('\n');
    let k = line.len() as int;
    assert forall|i: int| 0 <= i < k implies s[i] != '\n' by {
        assert(line.contains(line[i]));
    }
    lemma_find_char_at(s, '\n', k);
    assert(s.take(k) =~= line);
    assert(s.skip(k + 1) =~= Seq::<char>::empty());
    assert(lines_of(s.skip(k + 1)) =~= Seq::<Seq<char>>::empty());
    assert(lines_of(s) =~= seq![chomp(line)]);
}

/// Lines read back as themselves.
pub proof fn lemma_lines_of_unlines(lines: Seq<Seq<char>>)
    requires
        forall|i: int| 0 <= i < lines.len() ==> is_line(#[trigger] lines[i]),
    ensures
        lines_of(unlines(lines)) == lines,
        unlines(lines).len() == 0 || unlines(lines).last() == '\n',
    decreases lines.len(),
{
    if lines.len() == 0 {
        assert(lines_of(unlines(lines)) =~= lines);
    } else {
        let rest = lines.drop_first();
        assert forall|i: int| 0 <= i < rest.len() implies is_line(#[trigger] rest[i]) by {
            assert(rest[i] == lines[i + 1]);
        }
        lemma_lines_of_unlines(rest);
        let first = lines[0].push('\n');
        assert(is_line(lines[0]));
        lemma_one_line(lines[0]);
        lemma_lines_concat(first, unlines(rest));
        assert(lines_of(unlines(lines)) =~= seq![lines[0]] + rest);
        assert(lines =~= seq![lines[0]] + rest);
        let all = unlines(lines);
        if unlines(rest).len() == 0 {
            assert(all =~= first);
        } else {
            assert(all.last() == unlines(rest).last());
        }
    }
}

/// A line of a text holds no line end.
pub proof fn lemma_lines_hold_no_end(s: Seq<char>)
    ensures
        forall|i: int| 0 <= i < lines_of(s).len() ==> !(#[trigger] lines_of(s)[i]).contains('\n'),
    decreases s.len(),
{
    if s.len() > 0 {
        let k = find_char(s, '\n');
        lemma_find_char(s, '\n');
        if k < s.len() {
            lemma_lines_hold_no_end(s.skip(k + 1));
            let first = chomp(s.take(k));
            assert(!first.contains('\n')) by {
                if first.contains('\n') {
                    let i = choose|i: int| 0 <= i < first.len() && first[i] == '\n';
                    assert(s[i] == '\n');
                }
            }
            assert forall|i: int| 0 <= i < lines_of(s).len() implies !(#[trigger] lines_of(s)[i]).contains('\n') by {
                if i > 0 {
                    assert(lines_of(s)[i] == lines_of(s.skip(k + 1))[i - 1]);
                }
            }
        } else {
            if s.contains('\n') {
                let i = choose|i: int| 0 <= i < s.len() && s[i] == '\n';
                assert(s[i] != '\n');
            }
        }
    }
}

// -------------------------------------------------------------- digits

/// The lower-case hexadecimal digit of `n`.
pub open spec fn hex_digit(n: int) -> char {
    if n < 10 {
        (n + '0' as int) as char
    } else {
        (n - 10 + 'a' as int) as char
    }
}

/// Two lower-case hexadecimal digits for each byte.
pub open spec fn hex(b: Seq<u8>) -> Seq<char> {
    Seq::new(
        2 * b.len(),
        |i: int| hex_digit(if i % 2 == 0 { b[i / 2] as int / 16 } else { b[i / 2] as int % 16 }),
    )
}

/// The lower-case hexadecimal digit of `n`.
pub fn hex_digit_of(n: u8) -> (c: char)
    requires
        n < 16,
    ensures
        c == hex_digit(n as int),
{
    if n < 10 {
        (n + 48) as char
    } else {
        (n + 87) as char
    }
}

/// Two lower-case hexadecimal digits for each byte.
pub fn to_hex(b: &[u8]) -> (s: String)
    ensures
        s@ == hex(b@),
{
    let mut s = String::new();
    let mut i: usize = 0;
    while i < b.len()
        invariant
            i <= b@.len(),
            s@ == hex(b@).take(2 * i),
        decreases b@.len() - i,
    {
        let x: u8 = b[i];
        s.push(hex_digit_of(x / 16));
        s.push(hex_digit_of(x % 16));
        assert(s@ =~= hex(b@).take(2 * i + 2));
        i = i + 1;
    }
    assert(hex(b@).take(2 * b@.len() as int) =~= hex(b@));
    s
}

/// `n` in decimal, without leading zeros.
pub open spec fn decimal(n: nat) -> Seq<char>
    decreases n,
{
    if n < 10 {
        seq![hex_digit(n as int)]
    } else {
        decimal(n / 10).push(hex_digit((n % 10) as int))
    }
}

/// Appends `n` in decimal.
pub fn push_decimal(s: &mut String, n: u32)
    ensures
        final(s)@ == old(s)@ + decimal(n as nat),
    decreases n,
{
    if n < 10 {
        s.push(hex_digit_of(n as u8));
        assert(s@ =~= old(s)@ + decimal(n as nat));
    } else {
        push_decimal(s, n / 10);
        s.push(hex_digit_of((n % 10) as u8));
        assert(s@ =~= old(s)@ + decimal(n as nat));
    }
}

// --------------------------------------------------------------------- laws

/// The number that decimal digits stand for.
pub open spec fn number_of(digits: Seq<char>) -> int
    decreases digits.len(),
{
    if digits.len() == 0 {
        0
    } else {
        10 * number_of(digits.drop_last()) + (digits.last() as int - '0' as int)
    }
}

/// A number in decimal reads back as itself, in digits alone, and without a
/// leading zero unless it is zero.
pub proof fn law_decimal_reads_back(n: nat)
    ensures
        number_of(decimal(n)) == n,
        decimal(n).len() > 0,
        forall|i: int| 0 <= i < decimal(n).len() ==> '0' <= #[trigger] decimal(n)[i] <= '9',
        n > 0 ==> decimal(n)[0] != '0',
    decreases n,
{
    let d = decimal(n);
    if n < 10 {
        assert(d.drop_last() =~= Seq::<char>::empty());
        assert(number_of(d.drop_last()) == 0);
    } else {
        law_decimal_reads_back(n / 10);
        assert(d.drop_last() =~= decimal(n / 10));
        assert(d[0] == decimal(n / 10)[0]);
    }
}

/// Each byte is two digits, the high one first.
pub proof fn law_hex_is_two_digits(b: Seq<u8>, i: int)
    requires
        0 <= i < b.len(),
    ensures
        hex(b).len() == 2 * b.len(),
        digit_value(hex(b)[2 * i]) * 16 + digit_value(hex(b)[2 * i + 1]) == b[i],
{
    assert((2 * i) / 2 == i && (2 * i) % 2 == 0);
    assert((2 * i + 1) / 2 == i && (2 * i + 1) % 2 == 1);
}

/// What a lower-case hexadecimal digit stands for.
pub open spec fn digit_value(c: char) -> int {
    if '0' <= c <= '9' {
        c as int - '0' as int
    } else {
        c as int - 'a' as int + 10
    }
}

/// Trimming takes whitespace off both ends and nothing else.
pub proof fn law_trimming_takes_only_whitespace(s: Seq<char>)
    ensures
        exists|a: int, b: int|
            0 <= a <= b <= s.len() && trimmed(s) == #[trigger] s.subrange(a, b) && (forall|i: int|
                0 <= i < a || b <= i < s.len() ==> is_space(#[trigger] s[i])),
        trimmed(s).len() > 0 ==> !is_space(trimmed(s)[0]) && !is_space(trimmed(s).last()),
{
    let t = trim_start(s);
    let a = lemma_trim_start(s);
    let n = lemma_trim_end(t);
    assert(trimmed(s) =~= s.subrange(a, a + n));
    assert forall|i: int| 0 <= i < a || a + n <= i < s.len() implies is_space(#[trigger] s[i]) by {
        if i >= a {
            assert(t[i - a] == s[i]);
        }
    }
    if n > 0 {
        assert(trimmed(s)[0] == t[0]);
    }
}

proof fn lemma_trim_start(s: Seq<char>) -> (a: int)
    ensures
        0 <= a <= s.len(),
        trim_start(s) == s.skip(a),
        forall|i: int| 0 <= i < a ==> is_space(#[trigger] s[i]),
        a < s.len() ==> !is_space(s[a]),
    decreases s.len(),
{
    if s.len() > 0 && is_space(s[0]) {
        let a = lemma_trim_start(s.drop_first());
        assert(s.drop_first().skip(a) =~= s.skip(a + 1));
        assert forall|i: int| 0 <= i < a + 1 implies is_space(#[trigger] s[i]) by {
            if i > 0 {
                assert(s.drop_first()[i - 1] == s[i]);
            }
        }
        a + 1
    } else {
        assert(s.skip(0) =~= s);
        0
    }
}

proof fn lemma_trim_end(s: Seq<char>) -> (n: int)
    ensures
        0 <= n <= s.len(),
        trim_end(s) == s.take(n),
        forall|i: int| n <= i < s.len() ==> is_space(#[trigger] s[i]),
        n > 0 ==> !is_space(s[n - 1]),
    decreases s.len(),
{
    if s.len() > 0 && is_space(s.last()) {
        let n = lemma_trim_end(s.drop_last());
        assert(s.drop_last().take(n) =~= s.take(n));
        assert forall|i: int| n <= i < s.len() implies is_space(#[trigger] s[i]) by {
            if i < s.len() - 1 {
                assert(s.drop_last()[i] == s[i]);
            }
        }
        n
    } else {
        assert(s.take(s.len() as int) =~= s);
        s.len() as int
    }
}

/// Parts are joined in their order with one separator between neighbours.
pub proof fn law_join_puts_separators_between(parts: Seq<Seq<char>>, part: Seq<char>, sep: char)
    ensures
        join_spec(seq![], sep).len() == 0,
        join_spec(seq![part], sep) == part,
        parts.len() > 0 ==> join_spec(parts.push(part), sep) == join_spec(parts, sep) + seq![sep] + part,
{
    if parts.len() > 0 {
        assert(parts.push(part).drop_last() =~= parts);
        assert(join_spec(parts.push(part), sep) =~= join_spec(parts, sep) + seq![sep] + part);
    }
}

/// A text is split into lines at every `\n`; a carriage return before it goes
/// with it, and a last line without an end is kept as it stands. Lines that are
/// put together again each get an end.
pub proof fn law_lines_end_where_they_end(line: Seq<char>, rest: Seq<char>, lines: Seq<Seq<char>>)
    requires
        !line.contains('\n'),
    ensures
        lines_of(seq![]).len() == 0,
        line.len() > 0 ==> lines_of(line) == seq![line],
        line.len() > 0 && line.last() == '\r' ==> lines_of(line.push('\n') + rest) == seq![line.drop_last()] + lines_of(rest),
        !(line.len() > 0 && line.last() == '\r') ==> lines_of(line.push('\n') + rest) == seq![line] + lines_of(rest),
        unlines(seq![]).len() == 0,
        unlines(seq![line] + lines) == line.push('\n') + unlines(lines),
{
    let k = line.len() as int;
    assert forall|i: int| 0 <= i < k implies line[i] != '\n' by {
        assert(line.contains(line[i]));
    }
    lemma_find_char_at(line, '\n', k);
    lemma_one_line(line);
    lemma_lines_concat(line.push('\n'), rest);
    assert((seq![line] + lines).drop_first() =~= lines);
}

/// The characters that are whitespace.
pub proof fn law_whitespace(c: char)
    ensures
        is_space(c) <==> ({
            let n = c as u32;
            ||| n == 0x09 || n == 0x0a || n == 0x0b || n == 0x0c || n == 0x0d || n == 0x20 || n == 0x85 || n == 0xa0
            ||| n == 0x1680 || (0x2000 <= n && n <= 0x200a)
            ||| n == 0x2028 || n == 0x2029 || n == 0x202f || n == 0x205f || n == 0x3000
        }),
{
}

}
