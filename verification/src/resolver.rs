//! Owned resolver: answers names under one suffix from live surfaces.
//!
//! It is authoritative for one suffix and answers A queries from the surface
//! table: `vibenv-ndyg.ps.internal` resolves to whatever address the surface
//! named `vibenv-ndyg` is projected at, and stops resolving when that surface
//! goes away. It does not recurse or forward; anything else gets an empty
//! answer without an error.
//!
//! `.internal` is reserved for private use, so the suffix can never collide
//! with a public name.

use crate::addr::{IpAddr, IpView, Ipv4Addr};
use crate::peer::queries::named_ip;
use crate::peer::{ManagerView, PeerManager};
use crate::text::{from_chars, has_char, join, join_spec, texts, to_chars};
use vstd::prelude::*;

verus! {

/// The suffix this resolver is authoritative for, without a leading dot.
pub const SUFFIX: &'static str = "ps.internal";

/// The record type of an IPv4 address.
pub const TYPE_A: u16 = 1;

/// How long a client may keep an answer, in seconds.
pub const TTL: u8 = 30;

/// The question of a query.
#[derive(Debug, PartialEq, Eq)]
pub struct Question {
    /// Lowercased dotted name, no trailing dot
    pub name: String,
    pub qtype: u16,
    /// Offset just past the question (name + qtype + qclass)
    pub qend: usize,
}

/// A question as plain values.
pub struct QuestionView {
    pub name: Seq<char>,
    pub qtype: u16,
    pub qend: int,
}

impl View for Question {
    type V = QuestionView;

    open spec fn view(&self) -> QuestionView {
        QuestionView { name: self.name@, qtype: self.qtype, qend: self.qend as int }
    }
}

// --------------------------------------------------------------------- text

/// Whether all bytes are ASCII.
pub open spec fn is_ascii(bytes: Seq<u8>) -> bool {
    forall|i: int| 0 <= i < bytes.len() ==> #[trigger] bytes[i] < 128
}

/// The characters that ASCII bytes stand for.
pub open spec fn ascii_text(bytes: Seq<u8>) -> Seq<char> {
    Seq::new(bytes.len(), |i: int| bytes[i] as char)
}

/// What `String::from_utf8_lossy` makes of some bytes.
pub uninterp spec fn lossy_text(bytes: Seq<u8>) -> Seq<char>;

/// Reads bytes as text with `String::from_utf8_lossy`. What it makes of them
/// depends on the bytes alone; ASCII bytes are the characters they stand for.
#[verifier::external_body]
fn from_bytes_lossy(bytes: &[u8]) -> (s: String)
    ensures
        s@ == lossy_text(bytes@),
        is_ascii(bytes@) ==> s@ == ascii_text(bytes@),
{
    String::from_utf8_lossy(bytes).into_owned()
}

/// A character with an ASCII upper-case letter made lower-case.
pub open spec fn lower(c: char) -> char {
    if 'A' <= c <= 'Z' {
        (c as u8 + 32) as char
    } else {
        c
    }
}

/// A text with its ASCII letters in lower case.
pub open spec fn lower_text(s: Seq<char>) -> Seq<char> {
    Seq::new(s.len(), |i: int| lower(s[i]))
}

/// A text with its ASCII letters in lower case.
pub fn to_lower(s: &str) -> (r: String)
    ensures
        r@ == lower_text(s@),
{
    let v = to_chars(s);
    let mut r = String::new();
    let mut i: usize = 0;
    while i < v.len()
        invariant
            i <= v@.len(),
            r@ == lower_text(v@).take(i as int),
        decreases v@.len() - i,
    {
        let c = v[i];
        if 'A' <= c && c <= 'Z' {
            r.push((c as u8 + 32) as char);
        } else {
            r.push(c);
        }
        assert(r@ =~= lower_text(v@).take(i + 1));
        i = i + 1;
    }
    assert(lower_text(v@).take(v@.len() as int) =~= lower_text(v@));
    r
}

/// A label as text, in lower case: ASCII bytes stand for their characters, and
/// anything else is read lossily.
pub open spec fn label_text(bytes: Seq<u8>) -> Seq<char> {
    lower_text(
        if is_ascii(bytes) {
            ascii_text(bytes)
        } else {
            lossy_text(bytes)
        },
    )
}

// ------------------------------------------------------------------ question

/// The labels of the name at `i`, and the offset just past its end. None where
/// the name runs out of the packet or a label is longer than a name may hold
/// (a compression pointer among them).
pub open spec fn labels_at(buf: Seq<u8>, i: int) -> Option<(Seq<Seq<char>>, int)>
    decreases buf.len() - i,
{
    if i < 0 || i >= buf.len() {
        None
    } else if buf[i] == 0 {
        Some((seq![], i + 1))
    } else if buf[i] >= 64 || i + 1 + buf[i] > buf.len() {
        None
    } else {
        match labels_at(buf, i + 1 + buf[i]) {
            Some((rest, end)) => Some((seq![label_text(buf.subrange(i + 1, i + 1 + buf[i]))] + rest, end)),
            None => None,
        }
    }
}

/// Two bytes as a number, most significant first.
pub open spec fn be16(a: u8, b: u8) -> u16 {
    (a * 256 + b) as u16
}

/// The question of a query: one name, a type and a class behind a header that
/// announces one question.
pub open spec fn question_of(buf: Seq<u8>) -> Option<QuestionView> {
    if buf.len() < 12 || be16(buf[4], buf[5]) != 1 {
        None
    } else {
        match labels_at(buf, 12) {
            Some((labels, end)) => if end + 4 <= buf.len() {
                Some(QuestionView { name: join_spec(labels, '.'), qtype: be16(buf[end], buf[end + 1]), qend: end + 4 })
            } else {
                None
            },
            None => None,
        }
    }
}

/// Parse the single question in a standard query. Returns None on anything
/// malformed or unsupported (no questions, compression in the question, etc).
pub fn parse_question(buf: &[u8]) -> (r: Option<Question>)
    ensures
        match r {
            Some(q) => question_of(buf@) == Some(q@) && 16 < q.qend <= buf@.len(),
            None => question_of(buf@) is None,
        },
{
    if buf.len() < 12 {
        return None;
    }
    let qdcount: u16 = buf[4] as u16 * 256 + buf[5] as u16;
    if qdcount != 1 {
        return None;
    }
    let n = buf.len();
    let mut i: usize = 12;
    let mut labels: Vec<String> = Vec::new();
    let ghost want = labels_at(buf@, 12);
    proof {
        if want is Some {
            assert(texts(labels@) + want->Some_0.0 =~= want->Some_0.0);
        }
    }
    loop
        invariant_except_break
            want is Some <==> labels_at(buf@, i as int) is Some,
            want is Some ==> want->Some_0.0 == texts(labels@) + labels_at(buf@, i as int)->Some_0.0 && want->Some_0.1
                == labels_at(buf@, i as int)->Some_0.1,
        invariant
            12 <= i <= n == buf@.len(),
            want == labels_at(buf@, 12),
        ensures
            12 < i <= n,
            want is Some,
            want->Some_0.0 == texts(labels@),
            want->Some_0.1 == i,
        decreases n - i,
    {
        if i >= n {
            return None;
        }
        let len: usize = buf[i] as usize;
        if len == 0 {
            assert(texts(labels@) + Seq::<Seq<char>>::empty() =~= texts(labels@));
            i = i + 1;
            break;
        }
        if len >= 64 {
            return None;
        }
        if n - i - 1 < len {
            return None;
        }
        let start: usize = i + 1;
        let end: usize = start + len;
        let label = to_lower(from_bytes_lossy(vstd::slice::slice_subrange(buf, start, end)).as_str());
        let ghost before = texts(labels@);
        labels.push(label);
        proof {
            assert(texts(labels@) =~= before.push(label@));
            if labels_at(buf@, end as int) is Some {
                let rest = labels_at(buf@, end as int)->Some_0.0;
                assert(texts(labels@) + rest =~= before + (seq![label@] + rest));
            }
        }
        i = end;
    }
    if n - i < 4 {
        return None;
    }
    let qtype: u16 = buf[i] as u16 * 256 + buf[i + 1] as u16;
    Some(Question { name: join(&labels, '.'), qtype, qend: i + 4 })
}

// --------------------------------------------------------------------- label

/// The label of a name that is one label and the suffix.
pub open spec fn label_of(name: Seq<char>) -> Option<Seq<char>> {
    let tail = seq!['.'] + SUFFIX@;
    let n = name.len() - tail.len();
    if n > 0 && name.skip(n) == tail && !name.take(n).contains('.') {
        Some(name.take(n))
    } else {
        None
    }
}

/// If `name` is `<label>.<SUFFIX>` with a single label, return `<label>`.
pub fn host_label(name: &str) -> (r: Option<String>)
    ensures
        crate::text::opt_text(r) == label_of(name@),
{
    let v = to_chars(name);
    let s = to_chars(SUFFIX);
    let ghost tail = seq!['.'] + SUFFIX@;
    if v.len() <= s.len() || v.len() - s.len() <= 1 {
        return None;
    }
    let total: usize = v.len();
    let n: usize = total - s.len() - 1;
    if v[n] != '.' {
        assert(name@.skip(n as int)[0] != tail[0]);
        return None;
    }
    let mut i: usize = 0;
    while i < s.len()
        invariant
            i <= s@.len(),
            n + 1 + s@.len() == total == v@.len(),
            v@ == name@,
            s@ == SUFFIX@,
            tail == seq!['.'] + SUFFIX@,
            n == name@.len() - tail.len(),
            v@[n as int] == '.',
            forall|j: int| 0 <= j < i ==> v@[n + 1 + j] == s@[j],
        decreases s@.len() - i,
    {
        if v[n + 1 + i] != s[i] {
            assert(name@.skip(n as int)[1 + i] != tail[1 + i]);
            return None;
        }
        i = i + 1;
    }
    assert(name@.skip(n as int) =~= tail);
    let label = from_chars(&v, 0, n);
    assert(label@ =~= name@.take(n as int));
    if has_char(label.as_str(), '.') {
        return None;
    }
    Some(label)
}

// --------------------------------------------------------------------- reply

/// The header of a reply: the id of the query; an authoritative answer without
/// an error, with the recursion bit of the query; one question and `answers`
/// answers.
pub open spec fn reply_header(query: Seq<u8>, answers: u8) -> Seq<u8> {
    seq![query[0], query[1], (0x84 + query[2] % 2) as u8, 0, 0, 1, 0, answers, 0, 0, 0, 0]
}

/// The record that answers the question with an address.
pub open spec fn answer_record(ip: Seq<u8>) -> Seq<u8> {
    seq![0xC0u8, 0x0C, 0, 1, 0, 1, 0, 0, 0, TTL, 0, 4] + ip
}

/// A reply: header, the question of the query, and the record if there is an
/// answer.
pub open spec fn reply_bytes(query: Seq<u8>, qend: int, answer: Option<Seq<u8>>) -> Seq<u8> {
    match answer {
        Some(ip) => reply_header(query, 1) + query.subrange(12, qend) + answer_record(ip),
        None => reply_header(query, 0) + query.subrange(12, qend),
    }
}

/// The octets of an optional address.
pub open spec fn opt_v4(o: Option<Ipv4Addr>) -> Option<Seq<u8>> {
    match o {
        Some(a) => Some(a@),
        None => None,
    }
}

/// Assemble a reply that echoes the question and carries an A record when
/// `answer` is Some; otherwise an empty answer without an error.
pub fn build_reply(query: &[u8], qend: usize, answer: Option<Ipv4Addr>) -> (out: Vec<u8>)
    requires
        12 <= qend <= query@.len(),
    ensures
        out@ == reply_bytes(query@, qend as int, opt_v4(answer)),
{
    let mut out: Vec<u8> = Vec::new();
    let flags: u8 = query[2];
    let rd: u8 = flags & 0x01;
    assert(0x80u8 | 0x04u8 | (flags & 0x01) == 0x84 + flags % 2) by (bit_vector);
    let answers: u8 = if answer.is_some() {
        1
    } else {
        0
    };
    out.push(query[0]);
    out.push(query[1]);
    out.push(0x80 | 0x04 | rd);
    out.push(0x00);
    out.push(0x00);
    out.push(0x01);
    out.push(0x00);
    out.push(answers);
    out.push(0x00);
    out.push(0x00);
    out.push(0x00);
    out.push(0x00);
    assert(out@ =~= reply_header(query@, answers));
    let ghost head = out@;
    let mut i: usize = 12;
    while i < qend
        invariant
            12 <= i <= qend <= query@.len(),
            out@ == head + query@.subrange(12, i as int),
        decreases qend - i,
    {
        out.push(query[i]);
        assert(out@ =~= head + query@.subrange(12, i + 1));
        i = i + 1;
    }
    if let Some(ip) = answer {
        out.push(0xC0);
        out.push(0x0C);
        out.push(0x00);
        out.push(0x01);
        out.push(0x00);
        out.push(0x01);
        out.push(0x00);
        out.push(0x00);
        out.push(0x00);
        out.push(TTL);
        out.push(0x00);
        out.push(0x04);
        out.push(ip.octets[0]);
        out.push(ip.octets[1]);
        out.push(ip.octets[2]);
        out.push(ip.octets[3]);
        assert(out@ =~= reply_bytes(query@, qend as int, opt_v4(answer)));
    }
    out
}

/// The label that a question asks an address for, if it is a name of ours.
pub open spec fn asked_label(q: QuestionView) -> Option<Seq<char>> {
    if q.qtype == TYPE_A {
        label_of(q.name)
    } else {
        None
    }
}

/// The label that `q` asks an address for. A name of ours may exist without an
/// address of the type asked for; that is answered empty rather than denied, so
/// the client does not remember a denial for the whole name.
pub fn asks_for(q: &Question) -> (r: Option<String>)
    ensures
        crate::text::opt_text(r) == asked_label(q@),
{
    if q.qtype == TYPE_A {
        host_label(q.name.as_str())
    } else {
        None
    }
}

/// Build a reply for `query`, resolving the names of ours through `resolve`.
/// Returns None only if the query is malformed.
pub fn reply<F: FnOnce(&str) -> Option<Ipv4Addr>>(query: &[u8], resolve: F) -> (r: Option<Vec<u8>>)
    requires
        forall|s: &str| #[trigger] call_requires(resolve, (s,)),
    ensures
        match question_of(query@) {
            None => r is None,
            Some(q) => match asked_label(q) {
                None => r is Some && r->Some_0@ == reply_bytes(query@, q.qend, None),
                Some(label) => exists|s: &str, a: Option<Ipv4Addr>|
                    s@ == label && #[trigger] call_ensures(resolve, (s,), a) && r is Some && r->Some_0@ == reply_bytes(
                        query@,
                        q.qend,
                        opt_v4(a),
                    ),
            },
        },
{
    let q = match parse_question(query) {
        Some(q) => q,
        None => {
            return None;
        },
    };
    let answer = match asks_for(&q) {
        Some(label) => {
            let a = resolve(label.as_str());
            a
        },
        None => None,
    };
    Some(build_reply(query, q.qend, answer))
}

/// The answer of the daemon's own resolver: the address of the surface that is
/// called so, if that is an IPv4 address.
pub open spec fn surface_answer(m: ManagerView, q: QuestionView) -> Option<Seq<u8>> {
    match asked_label(q) {
        Some(label) => match named_ip(m, label) {
            Some(IpView::V4(v4)) => Some(v4),
            _ => None,
        },
        None => None,
    }
}

/// Build a reply for one query packet, or None if it is malformed.
pub fn handle_query(query: &[u8], peers: &PeerManager) -> (r: Option<Vec<u8>>)
    requires
        peers.wf(),
    ensures
        match question_of(query@) {
            None => r is None,
            Some(q) => r is Some && r->Some_0@ == reply_bytes(query@, q.qend, surface_answer(peers@, q)),
        },
{
    let q = match parse_question(query) {
        Some(q) => q,
        None => {
            return None;
        },
    };
    let answer = match asks_for(&q) {
        Some(label) => match peers.resolve_name(label.as_str()) {
            Some(IpAddr::V4(v4)) => Some(v4),
            _ => None,
        },
        None => None,
    };
    Some(build_reply(query, q.qend, answer))
}

// --------------------------------------------------------------------- laws

/// What a name reads as depends on its own bytes alone.
proof fn lemma_labels_agree(a: Seq<u8>, b: Seq<u8>, i: int, end: int)
    requires
        labels_at(a, i) is Some,
        labels_at(a, i)->Some_0.1 <= end <= a.len(),
        end <= b.len(),
        0 <= i,
        forall|j: int| i <= j < end ==> a[j] == b[j],
    ensures
        labels_at(b, i) == labels_at(a, i),
        labels_at(a, i)->Some_0.1 > i,
    decreases a.len() - i,
{
    if a[i] != 0 {
        let next = i + 1 + a[i];
        lemma_labels_end(a, next);
        assert(i < end);
        assert(a[i] == b[i]);
        lemma_labels_agree(a, b, next, end);
        assert(a.subrange(i + 1, next) =~= b.subrange(i + 1, next));
    } else {
        assert(a[i] == b[i]);
    }
}

/// A name ends behind where it starts, and inside the packet.
proof fn lemma_labels_end(buf: Seq<u8>, i: int)
    requires
        labels_at(buf, i) is Some,
    ensures
        i < labels_at(buf, i)->Some_0.1 <= buf.len(),
    decreases buf.len() - i,
{
    if buf[i] != 0 {
        lemma_labels_end(buf, i + 1 + buf[i]);
    }
}

/// A reply carries the id and the question of its query: read as a query, it
/// asks the same.
pub proof fn law_reply_echoes_the_question(query: Seq<u8>, answer: Option<Seq<u8>>)
    requires
        question_of(query) is Some,
        answer is Some ==> answer->Some_0.len() == 4,
    ensures
        ({
            let q = question_of(query)->Some_0;
            let r = reply_bytes(query, q.qend, answer);
            &&& r[0] == query[0] && r[1] == query[1]
            &&& question_of(r) == Some(q)
            &&& r.len() == q.qend + if answer is Some {
                16int
            } else {
                0
            }
        }),
{
    let q = question_of(query)->Some_0;
    let r = reply_bytes(query, q.qend, answer);
    lemma_labels_end(query, 12);
    assert forall|j: int| 12 <= j < q.qend implies query[j] == r[j] by {
        assert(query.subrange(12, q.qend)[j - 12] == query[j]);
    }
    lemma_labels_agree(query, r, 12, q.qend);
}

/// A reply is authoritative, holds no error, and counts one answer exactly
/// when there is one; the address ends the packet.
pub proof fn law_reply_counts_its_answers(query: Seq<u8>, qend: int, answer: Option<Seq<u8>>)
    requires
        12 <= qend <= query.len(),
        answer is Some ==> answer->Some_0.len() == 4,
    ensures
        ({
            let r = reply_bytes(query, qend, answer);
            &&& r[2] == 0x84 + query[2] % 2
            &&& r[3] == 0
            &&& be16(r[6], r[7]) == if answer is Some {
                1u16
            } else {
                0u16
            }
            &&& answer is Some ==> r.skip(r.len() - 4) == answer->Some_0
        }),
{
    let r = reply_bytes(query, qend, answer);
    if answer is Some {
        assert(r.skip(r.len() - 4) =~= answer->Some_0);
    }
}

/// A name outside the suffix has no label, and neither has the suffix itself or
/// a name of more labels than one.
pub proof fn law_only_one_label_under_the_suffix(name: Seq<char>, label: Seq<char>)
    ensures
        label_of(name) == Some(label) <==> name == label + (seq!['.'] + SUFFIX@) && label.len() > 0 && !label.contains('.'),
{
    let tail = seq!['.'] + SUFFIX@;
    let n = name.len() - tail.len();
    if label_of(name) == Some(label) {
        assert(name =~= name.take(n) + name.skip(n));
    }
    if name == label + tail {
        assert(name.take(n) =~= label);
        assert(name.skip(n) =~= tail);
    }
}

/// A name as it stands in a packet: each label behind its length, and a zero.
pub open spec fn wire_name(labels: Seq<Seq<u8>>) -> Seq<u8>
    decreases labels.len(),
{
    if labels.len() == 0 {
        seq![0u8]
    } else {
        seq![labels[0].len() as u8] + labels[0] + wire_name(labels.drop_first())
    }
}

/// What a name of some labels is written as reads as those labels.
proof fn lemma_wire_name(pre: Seq<u8>, labels: Seq<Seq<u8>>, rest: Seq<u8>)
    requires
        forall|i: int| 0 <= i < labels.len() ==> 0 < (#[trigger] labels[i]).len() < 64,
    ensures
        labels_at(pre + wire_name(labels) + rest, pre.len() as int) == Some(
            (Seq::new(labels.len(), |i: int| label_text(labels[i])), (pre.len() + wire_name(labels).len()) as int),
        ),
    decreases labels.len(),
{
    let buf = pre + wire_name(labels) + rest;
    let i = pre.len() as int;
    let want = Seq::new(labels.len(), |i: int| label_text(labels[i]));
    if labels.len() == 0 {
        assert(buf[i] == 0);
        assert(want =~= Seq::<Seq<char>>::empty());
    } else {
        let first = labels[0];
        let tail = labels.drop_first();
        let head = pre + seq![first.len() as u8] + first;
        assert forall|j: int| 0 <= j < tail.len() implies 0 < (#[trigger] tail[j]).len() < 64 by {
            assert(tail[j] == labels[j + 1]);
        }
        lemma_wire_name(head, tail, rest);
        assert(buf =~= head + wire_name(tail) + rest);
        assert(buf[i] == first.len() as u8);
        assert(buf.subrange(i + 1, i + 1 + first.len()) =~= first);
        let others = Seq::new(tail.len(), |i: int| label_text(tail[i]));
        assert(want =~= seq![label_text(first)] + others);
    }
}

/// A query is read as what it asks: the name whose labels it holds, with dots
/// between them, the type behind it, and the end of the question, whatever
/// follows.
pub proof fn law_query_is_read_as_written(head: Seq<u8>, labels: Seq<Seq<u8>>, kind: Seq<u8>, rest: Seq<u8>)
    requires
        head.len() == 12,
        head[4] == 0,
        head[5] == 1,
        kind.len() == 4,
        forall|i: int| 0 <= i < labels.len() ==> 0 < (#[trigger] labels[i]).len() < 64,
    ensures
        question_of(head + wire_name(labels) + (kind + rest)) == Some(
            QuestionView {
                name: join_spec(Seq::new(labels.len(), |i: int| label_text(labels[i])), '.'),
                qtype: (kind[0] * 256 + kind[1]) as u16,
                qend: (wire_name(labels).len() + 16) as int,
            },
        ),
{
    lemma_wire_name(head, labels, kind + rest);
    let buf = head + wire_name(labels) + (kind + rest);
    let end = (12 + wire_name(labels).len()) as int;
    assert(buf[4] == 0 && buf[5] == 1);
    assert(buf[end] == kind[0] && buf[end + 1] == kind[1]);
}

/// The letter that an ASCII byte stands for, in lower case.
pub open spec fn small(b: u8) -> char {
    if 65 <= b <= 90 {
        (b + 32) as char
    } else {
        b as char
    }
}

/// A text of such letters.
pub open spec fn small_text(bytes: Seq<u8>) -> Seq<char> {
    Seq::new(bytes.len(), |i: int| small(bytes[i]))
}

/// A query for the address of `<label>.ps.internal`, in any case, asks for that
/// label in lower case; a query for anything but an address asks for none.
pub proof fn law_surface_is_asked_for(
    head: Seq<u8>,
    label: Seq<u8>,
    ps: Seq<u8>,
    internal: Seq<u8>,
    kind: Seq<u8>,
    rest: Seq<u8>,
)
    requires
        head.len() == 12,
        head[4] == 0,
        head[5] == 1,
        kind.len() == 4,
        0 < label.len() < 64,
        is_ascii(label) && is_ascii(ps) && is_ascii(internal),
        !label.contains(46u8),
        small_text(ps) == "ps"@,
        small_text(internal) == "internal"@,
    ensures
        ({
            let q = question_of(head + wire_name(seq![label, ps, internal]) + (kind + rest));
            &&& q is Some
            &&& kind[0] == 0 && kind[1] == 1 ==> asked_label(q->Some_0) == Some(small_text(label))
            &&& !(kind[0] == 0 && kind[1] == 1) ==> asked_label(q->Some_0) is None
        }),
{
    reveal_strlit("ps");
    reveal_strlit("internal");
    reveal_strlit("ps.internal");
    let labels = seq![label, ps, internal];
    let name = small_text(label);
    assert("ps"@.len() == 2);
    assert("internal"@.len() == 8);
    assert(small_text(ps).len() == ps.len());
    assert(small_text(internal).len() == internal.len());
    assert forall|i: int| 0 <= i < labels.len() implies 0 < (#[trigger] labels[i]).len() < 64 by {
        assert(i == 0 || i == 1 || i == 2);
    }
    law_query_is_read_as_written(head, labels, kind, rest);
    lemma_small(label);
    lemma_small(ps);
    lemma_small(internal);
    let read = Seq::new(labels.len(), |i: int| label_text(labels[i]));
    assert(read =~= seq![name, "ps"@, "internal"@]);
    let two = read.drop_last();
    assert(two =~= seq![name, "ps"@]);
    assert(two.drop_last() =~= seq![name]);
    assert(join_spec(two.drop_last(), '.') == name);
    assert(join_spec(two, '.') =~= name.push('.') + "ps"@);
    assert(join_spec(read, '.') =~= name + (seq!['.'] + "ps.internal"@));
    assert(!name.contains('.')) by {
        if name.contains('.') {
            let i = choose|i: int| 0 <= i < name.len() && name[i] == '.';
            assert(small(label[i]) == '.');
            assert(label[i] < 128);
            assert(label[i] == 46u8);
            assert(label.contains(46u8));
        }
    }
    law_only_one_label_under_the_suffix(join_spec(read, '.'), name);
    assert(kind[0] * 256 + kind[1] == 1 <==> kind[0] == 0 && kind[1] == 1);
}

/// ASCII bytes read as their letters in lower case.
proof fn lemma_small(bytes: Seq<u8>)
    requires
        is_ascii(bytes),
    ensures
        label_text(bytes) == small_text(bytes),
{
    assert forall|i: int| 0 <= i < bytes.len() implies label_text(bytes)[i] == small(bytes[i]) by {
        assert(bytes[i] < 128);
        assert(ascii_text(bytes)[i] == bytes[i] as char);
    }
    assert(label_text(bytes) =~= small_text(bytes));
}

/// The resolver answers the address of a name of ours with where that name
/// leads, if that is an IPv4 address; anything else it answers with nothing.
pub proof fn law_answer_is_where_the_name_leads(m: ManagerView, q: QuestionView, label: Seq<char>)
    requires
        label.len() > 0,
        !label.contains('.'),
    ensures
        q.qtype == 1 && q.name == label + seq!['.'] + "ps.internal"@ ==> surface_answer(m, q) == match named_ip(m, label) {
            Some(IpView::V4(a)) => Some(a),
            _ => None,
        },
        q.qtype != 1 ==> surface_answer(m, q) is None,
        (forall|l: Seq<char>| q.name != #[trigger] (l + (seq!['.'] + "ps.internal"@))) ==> surface_answer(m, q) is None,
{
    if q.name == label + seq!['.'] + "ps.internal"@ {
        assert(q.name =~= label + (seq!['.'] + "ps.internal"@));
    }
    law_only_one_label_under_the_suffix(q.name, label);
    if label_of(q.name) is Some {
        let l = label_of(q.name)->Some_0;
        law_only_one_label_under_the_suffix(q.name, l);
        assert(q.name == l + (seq!['.'] + "ps.internal"@));
    }
}

/// The layout of a reply: one question and no other section but the answer; the
/// question as it was asked; and the answer as a record of an address, of the
/// name that was asked, to be kept for half a minute.
pub proof fn law_reply_layout(query: Seq<u8>, qend: int, ip: Seq<u8>, i: int)
    requires
        12 <= qend <= query.len(),
        ip.len() == 4,
        0 <= i < 12,
    ensures
        ({
            let r = reply_bytes(query, qend, Some(ip));
            let n = reply_bytes(query, qend, None);
            &&& r.len() == qend + 16 && n.len() == qend
            &&& r[0] == query[0] && r[1] == query[1] && r[2] == 0x84 + query[2] % 2 && r[3] == 0
            &&& r[4] == 0 && r[5] == 1 && r[6] == 0 && r[7] == 1 && r[8] == 0 && r[9] == 0 && r[10] == 0 && r[11] == 0
            &&& n[7] == 0 && (i != 7 ==> n[i] == r[i])
            &&& forall|j: int| 12 <= j < qend ==> #[trigger] r[j] == query[j] && n[j] == query[j]
            &&& r[qend] == 0xC0 && r[qend + 1] == 0x0C && r[qend + 2] == 0 && r[qend + 3] == 1
            &&& r[qend + 4] == 0 && r[qend + 5] == 1
            &&& r[qend + 6] == 0 && r[qend + 7] == 0 && r[qend + 8] == 0 && r[qend + 9] == 30
            &&& r[qend + 10] == 0 && r[qend + 11] == 4
            &&& r[qend + 12] == ip[0] && r[qend + 13] == ip[1] && r[qend + 14] == ip[2] && r[qend + 15] == ip[3]
        }),
{
    let r = reply_bytes(query, qend, Some(ip));
    let n = reply_bytes(query, qend, None);
    assert forall|j: int| 12 <= j < qend implies #[trigger] r[j] == query[j] && n[j] == query[j] by {
        assert(query.subrange(12, qend)[j - 12] == query[j]);
    }
}

/// What is no query for one name is not read as one: a packet that is too short
/// for a header, or announces any other number of questions, or holds a label
/// that is too long or a pointer, or ends before its question does.
pub proof fn law_malformed_query_is_not_read(buf: Seq<u8>)
    ensures
        buf.len() < 12 ==> question_of(buf) is None,
        buf.len() >= 12 && !(buf[4] == 0 && buf[5] == 1) ==> question_of(buf) is None,
        buf.len() == 12 ==> question_of(buf) is None,
        buf.len() > 12 && buf[12] >= 64 ==> question_of(buf) is None,
        buf.len() > 12 && buf[12] > 0 && 13 + buf[12] >= buf.len() ==> question_of(buf) is None,
        question_of(buf) is Some ==> 16 < question_of(buf)->Some_0.qend <= buf.len(),
{
    if buf.len() >= 12 && question_of(buf) is Some {
        lemma_labels_end(buf, 12);
        assert(buf[4] * 256 + buf[5] == 1 <==> buf[4] == 0 && buf[5] == 1);
    }
    if buf.len() >= 12 && !(buf[4] == 0 && buf[5] == 1) {
        assert(buf[4] * 256 + buf[5] != 1);
    }
    if buf.len() > 12 && 0 < buf[12] < 64 && 13 + buf[12] == buf.len() {
        assert(labels_at(buf, 13 + buf[12]) is None);
    }
}

}
