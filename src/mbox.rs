//! Splitting a mailbox file into its messages. Each message follows an
//! envelope line that starts with `From `; a body line that starts with one or
//! more `>` and then `From ` has one `>` removed.
use vstd::prelude::*;

verus! {

/// The five bytes `From ` that open an envelope line.
pub open spec fn from_marker() -> Seq<u8> {
    seq![0x46u8, 0x72u8, 0x6fu8, 0x6du8, 0x20u8]
}

/// `s` holds `From ` at index `i`.
pub open spec fn from_at(s: Seq<u8>, i: int) -> bool {
    0 <= i && i + 5 <= s.len() && s.subrange(i, i + 5) == from_marker()
}

/// A line that starts with `From `: it separates two messages.
pub open spec fn is_envelope(line: Seq<u8>) -> bool {
    from_at(line, 0)
}

/// A line that reads `From ` after a run of one or more `>`.
pub open spec fn is_quoted_envelope(line: Seq<u8>) -> bool {
    exists|k: int|
        1 <= k && (forall|j: int| 0 <= j < k ==> #[trigger] line[j] == 0x3e) && #[trigger] from_at(
            line,
            k,
        )
}

/// A body line as it stands in the message: a quoted envelope line loses one
/// `>`, and every other line stays as it is.
pub open spec fn unquote(line: Seq<u8>) -> Seq<u8> {
    if is_quoted_envelope(line) {
        line.subrange(1, line.len() as int)
    } else {
        line
    }
}

/// The end of the line that starts at `i`: just past its `\n`, or the end of
/// `s` for a last line without one.
pub open spec fn line_end(s: Seq<u8>, i: int) -> int
    decreases s.len() - i,
{
    if i >= s.len() {
        s.len() as int
    } else if s[i] == 0x0a {
        i + 1
    } else {
        line_end(s, i + 1)
    }
}

proof fn lemma_line_end_bounds(s: Seq<u8>, i: int)
    requires
        0 <= i,
    ensures
        i < s.len() ==> i < line_end(s, i) <= s.len(),
        i >= s.len() ==> line_end(s, i) == s.len(),
    decreases s.len() - i,
{
    if i < s.len() && s[i] != 0x0a {
        lemma_line_end_bounds(s, i + 1);
    }
}

/// The scan for one message, from position `pos` of `data`, where `found`
/// tells whether an envelope line has been passed and `msg` holds the bytes
/// gathered so far. Lines before the first envelope line are dropped; the
/// next envelope line after it is consumed and ends the message, unless no
/// byte has been gathered yet: an empty message is passed over.
///
/// Returns the position and the state after the scan, and the message.
pub open spec fn scan_message(data: Seq<u8>, pos: int, found: bool, msg: Seq<u8>) -> (
    int,
    bool,
    Seq<u8>,
)
    decreases data.len() - pos,
    when 0 <= pos
    via scan_message_decreases
{
    if pos >= data.len() {
        (pos, found, msg)
    } else {
        let e = line_end(data, pos);
        let line = data.subrange(pos, e);
        if !found {
            scan_message(data, e, is_envelope(line), msg)
        } else if is_envelope(line) {
            if msg.len() > 0 {
                (e, true, msg)
            } else {
                scan_message(data, e, true, msg)
            }
        } else {
            scan_message(data, e, true, msg + unquote(line))
        }
    }
}

/// A scan stops before the end of the mailbox only with a non-empty message.
proof fn lemma_scan_message_end(data: Seq<u8>, pos: int, found: bool, msg: Seq<u8>)
    requires
        0 <= pos <= data.len(),
    ensures
        scan_message(data, pos, found, msg).0 <= data.len(),
        scan_message(data, pos, found, msg).0 < data.len() ==> scan_message(
            data,
            pos,
            found,
            msg,
        ).2.len() > 0,
    decreases data.len() - pos,
{
    if pos < data.len() {
        let e = line_end(data, pos);
        lemma_line_end_bounds(data, pos);
        let line = data.subrange(pos, e);
        if !found {
            lemma_scan_message_end(data, e, is_envelope(line), msg);
        } else if is_envelope(line) {
            if msg.len() == 0 {
                lemma_scan_message_end(data, e, true, msg);
            }
        } else {
            lemma_scan_message_end(data, e, true, msg + unquote(line));
        }
    }
}

/// A call of `next` that yields no message has read the whole mailbox, so every
/// later call yields none either.
pub proof fn law_none_only_at_end(data: Seq<u8>, pos: int, found: bool)
    requires
        0 <= pos <= data.len(),
        yielded(data, pos, found) is None,
    ensures
        scan_message(data, pos, found, Seq::empty()).0 == data.len(),
        yielded(
            data,
            scan_message(data, pos, found, Seq::empty()).0,
            scan_message(data, pos, found, Seq::empty()).1,
        ) is None,
{
    lemma_scan_message_end(data, pos, found, Seq::empty());
}

#[via_fn]
proof fn scan_message_decreases(data: Seq<u8>, pos: int, found: bool, msg: Seq<u8>) {
    lemma_line_end_bounds(data, pos);
}

/// The one step of the splitter for one line: updates whether an envelope line
/// has been seen and appends the line, unquoted, to `message` where it belongs
/// to one. Returns whether the line is an envelope line met inside a message:
/// it ends the message where that holds bytes, and is passed over otherwise.
pub fn take_line(found_from: &mut bool, line: &[u8], message: &mut Vec<u8>) -> (ends: bool)
    ensures
        ends == (*old(found_from) && is_envelope(line@)),
        *final(found_from) == (*old(found_from) || is_envelope(line@)),
        final(message)@ == if *old(found_from) && !is_envelope(line@) {
            old(message)@ + unquote(line@)
        } else {
            old(message)@
        },
{
    let envelope = starts_with_from(line, 0);
    if !*found_from {
        if envelope {
            *found_from = true;
        }
        return false;
    }
    if envelope {
        return true;
    }
    let quoted = is_quoted_from(line);
    let start: usize = if quoted { 1 } else { 0 };
    let mut i: usize = start;
    let ghost before = message@;
    while i < line.len()
        invariant
            start <= i <= line@.len(),
            start <= line@.len(),
            message@ == before + line@.subrange(start as int, i as int),
        decreases line@.len() - i,
    {
        message.push(line[i]);
        i = i + 1;
    }
    proof {
        if !quoted {
            assert(line@.subrange(0, line@.len() as int) == line@);
        }
    }
    false
}

/// Whether `s` holds `From ` at index `i`.
fn starts_with_from(s: &[u8], i: usize) -> (r: bool)
    ensures
        r == from_at(s@, i as int),
{
    if i > s.len() || s.len() - i < 5 {
        return false;
    }
    let r = s[i] == 0x46 && s[i + 1] == 0x72 && s[i + 2] == 0x6f && s[i + 3] == 0x6d && s[i + 4]
        == 0x20;
    assert(r == (s@.subrange(i as int, i + 5) =~= from_marker()));
    r
}

/// Whether `line` is a quoted envelope line.
fn is_quoted_from(line: &[u8]) -> (r: bool)
    ensures
        r == is_quoted_envelope(line@),
{
    if line.len() == 0 || line[0] != 0x3e {
        return false;
    }
    let mut k: usize = 1;
    while k < line.len() && line[k] == 0x3e
        invariant
            1 <= k <= line@.len(),
            forall|j: int| 0 <= j < k ==> line@[j] == 0x3e,
        decreases line@.len() - k,
    {
        k = k + 1;
    }
    let r = starts_with_from(line, k);
    proof {
        if r {
            assert(from_at(line@, k as int));
        } else {
            assert forall|m: int|
                1 <= m && (forall|j: int| 0 <= j < m ==> #[trigger] line@[j] == 0x3e) implies !from_at(
                line@,
                m,
            ) by {
                if from_at(line@, m) {
                    assert(line@[m] == line@.subrange(m, m + 5)[0]);
                    if m < k {
                        assert(line@[m] == 0x3e);
                    } else if m > k {
                        assert(line@[k as int] == 0x3e);
                    }
                }
            }
        }
    }
    r
}

/// The message that one scan from `pos` yields: `None` where it gathered no
/// bytes, which happens only at the end of the mailbox.
pub open spec fn yielded(data: Seq<u8>, pos: int, found: bool) -> Option<Seq<u8>> {
    let m = scan_message(data, pos, found, Seq::empty()).2;
    if m.len() > 0 {
        Some(m)
    } else {
        None
    }
}

/// A mailbox held in memory, read one message at a time.
pub struct MBoxParser {
    data: Vec<u8>,
    pos: usize,
    found_from: bool,
}

impl MBoxParser {
    /// The mailbox's bytes.
    pub closed spec fn data(&self) -> Seq<u8> {
        self.data@
    }

    /// How far the mailbox has been read.
    pub closed spec fn pos(&self) -> int {
        self.pos as int
    }

    /// Whether an envelope line has been read.
    pub closed spec fn found_from(&self) -> bool {
        self.found_from
    }

    /// The read position never runs past the end of the mailbox.
    pub open spec fn wf(&self) -> bool {
        self.pos() <= self.data().len()
    }

    /// A parser at the start of a copy of `reader`.
    pub fn new(reader: &[u8]) -> (r: MBoxParser)
        ensures
            r.wf(),
            r.data() == reader@,
            r.pos() == 0,
            !r.found_from(),
    {
        let mut data: Vec<u8> = Vec::with_capacity(reader.len());
        let mut i: usize = 0;
        while i < reader.len()
            invariant
                i <= reader@.len(),
                data@ == reader@.subrange(0, i as int),
            decreases reader@.len() - i,
        {
            data.push(reader[i]);
            i = i + 1;
        }
        assert(data@ == reader@);
        MBoxParser { data, pos: 0, found_from: false }
    }

    /// Whether the whole mailbox has been read: from then on no call of
    /// `next` yields a message.
    pub fn is_exhausted(&self) -> (r: bool)
        requires
            self.wf(),
        ensures
            r == (self.pos() == self.data().len()),
    {
        self.pos == self.data.len()
    }

    /// The next message, with the envelope lines left out and quoted envelope
    /// lines unquoted; `None` once the whole mailbox has been read.
    pub fn next(&mut self) -> (r: Option<Vec<u8>>)
        requires
            old(self).wf(),
        ensures
            final(self).wf(),
            final(self).data() == old(self).data(),
            final(self).pos() == scan_message(old(self).data(), old(self).pos(), old(self).found_from(), Seq::empty()).0,
            final(self).found_from() == scan_message(old(self).data(), old(self).pos(), old(self).found_from(), Seq::empty()).1,
            match yielded(old(self).data(), old(self).pos(), old(self).found_from()) {
                None => r is None,
                Some(m) => r is Some && r->0@ == m,
            },
            r is None ==> final(self).pos() == final(self).data().len(),
    {
        proof {
            lemma_scan_message_end(self.data@, self.pos as int, self.found_from, Seq::empty());
        }
        let ghost data = self.data@;
        let ghost pos0 = self.pos as int;
        let ghost found0 = self.found_from;
        let mut message: Vec<u8> = Vec::new();
        let len = self.data.len();
        while self.pos < len
            invariant_except_break
                scan_message(data, self.pos as int, self.found_from, message@)
                    == scan_message(data, pos0, found0, Seq::empty()),
            invariant
                self.data@ == data,
                data == old(self).data@,
                pos0 == old(self).pos,
                found0 == old(self).found_from,
                len == data.len(),
                self.pos <= len,
            ensures
                scan_message(data, pos0, found0, Seq::empty())
                    == (self.pos as int, self.found_from, message@),
            decreases len - self.pos,
        {
            let e = find_line_end(&self.data, self.pos);
            let line = &self.data.as_slice()[self.pos..e];
            let ends = take_line(&mut self.found_from, line, &mut message);
            self.pos = e;
            if ends && message.len() > 0 {
                break;
            }
        }
        if message.len() > 0 {
            Some(message)
        } else {
            None
        }
    }
}

/// The end of the line that starts at `i`.
fn find_line_end(s: &Vec<u8>, i: usize) -> (e: usize)
    requires
        i < s@.len(),
    ensures
        e == line_end(s@, i as int),
        i < e <= s@.len(),
{
    let mut j: usize = i;
    while j < s.len() && s[j] != 0x0a
        invariant
            i <= j <= s@.len(),
            line_end(s@, j as int) == line_end(s@, i as int),
        decreases s@.len() - j,
    {
        j = j + 1;
    }
    proof {
        lemma_line_end_bounds(s@, i as int);
    }
    if j < s.len() {
        j + 1
    } else {
        j
    }
}

/// The successive results of `n` calls of `next`, from position `pos` and
/// state `found`.
pub open spec fn messages_from(data: Seq<u8>, pos: int, found: bool, n: nat) -> Seq<Option<Seq<u8>>>
    decreases n,
{
    if n == 0 {
        Seq::empty()
    } else {
        let r = scan_message(data, pos, found, Seq::empty());
        seq![yielded(data, pos, found)] + messages_from(data, r.0, r.1, (n - 1) as nat)
    }
}

/// After the whole mailbox has been read, `next` yields no message and leaves
/// the parser as it was, so every later call yields none either.
pub proof fn law_exhausted_stays_exhausted(data: Seq<u8>, found: bool)
    ensures
        scan_message(data, data.len() as int, found, Seq::empty()) == (
            data.len() as int,
            found,
            Seq::<u8>::empty(),
        ),
        yielded(data, data.len() as int, found) is None,
{
}

/// A line that reads `From ` after a run of zero or more `>`: a writer quotes
/// it with one more `>`.
pub open spec fn needs_quote(line: Seq<u8>) -> bool {
    exists|k: int|
        0 <= k && (forall|j: int| 0 <= j < k ==> #[trigger] line[j] == 0x3e) && #[trigger] from_at(
            line,
            k,
        )
}

/// A body line as a writer puts it into the mailbox.
pub open spec fn quote(line: Seq<u8>) -> Seq<u8> {
    if needs_quote(line) {
        seq![0x3eu8] + line
    } else {
        line
    }
}

/// A line that may lack its `\n`: no `\n` stands in it but as its last byte.
pub open spec fn is_open_line(l: Seq<u8>) -> bool {
    &&& l.len() > 0
    &&& forall|j: int| 0 <= j < l.len() - 1 ==> l[j] != 0x0a
}

/// A whole line: it ends with its only `\n`.
pub open spec fn is_line(l: Seq<u8>) -> bool {
    &&& is_open_line(l)
    &&& l.last() == 0x0a
}

/// A body of one or more lines, each of which but the last ends with `\n`;
/// the last does too where `closed`.
pub open spec fn is_body(ls: Seq<Seq<u8>>, closed: bool) -> bool {
    &&& ls.len() > 0
    &&& forall|k: int| 0 <= k < ls.len() ==> is_open_line(#[trigger] ls[k])
    &&& forall|k: int| 0 <= k < ls.len() - 1 ==> is_line(#[trigger] ls[k])
    &&& closed ==> is_line(ls.last())
}

/// The lines one after the other.
pub open spec fn concat(ls: Seq<Seq<u8>>) -> Seq<u8>
    decreases ls.len(),
{
    if ls.len() == 0 {
        Seq::empty()
    } else {
        ls[0] + concat(ls.drop_first())
    }
}

/// The lines one after the other, each quoted.
pub open spec fn quoted_body(ls: Seq<Seq<u8>>) -> Seq<u8>
    decreases ls.len(),
{
    if ls.len() == 0 {
        Seq::empty()
    } else {
        quote(ls[0]) + quoted_body(ls.drop_first())
    }
}

/// A message to write into a mailbox: an envelope line, and a body of one or
/// more lines, whose last line ends with `\n` where `closed`.
pub open spec fn is_mail(m: (Seq<u8>, Seq<Seq<u8>>), closed: bool) -> bool {
    &&& is_line(m.0)
    &&& is_envelope(m.0)
    &&& is_body(m.1, closed)
}

/// Messages that can be written one after the other: every body but the last
/// ends with `\n`.
pub open spec fn is_mail_list(msgs: Seq<(Seq<u8>, Seq<Seq<u8>>)>) -> bool {
    forall|k: int| 0 <= k < msgs.len() ==> is_mail(#[trigger] msgs[k], k < msgs.len() - 1)
}

/// A mailbox written from messages: each envelope line and then the quoted
/// body.
pub open spec fn mailbox(msgs: Seq<(Seq<u8>, Seq<Seq<u8>>)>) -> Seq<u8>
    decreases msgs.len(),
{
    if msgs.len() == 0 {
        Seq::empty()
    } else {
        msgs[0].0 + quoted_body(msgs[0].1) + mailbox(msgs.drop_first())
    }
}

/// The bodies of the messages in order, and then the end of the mailbox.
pub open spec fn bodies_then_end(msgs: Seq<(Seq<u8>, Seq<Seq<u8>>)>) -> Seq<Option<Seq<u8>>>
    decreases msgs.len(),
{
    if msgs.len() == 0 {
        seq![None]
    } else {
        seq![Some(concat(msgs[0].1))] + bodies_then_end(msgs.drop_first())
    }
}

proof fn lemma_line_end_of_line(data: Seq<u8>, p: int, l: Seq<u8>, j: int)
    requires
        is_open_line(l),
        is_line(l) || p + l.len() == data.len(),
        0 <= p <= j < p + l.len() <= data.len(),
        data.subrange(p, p + l.len()) == l,
    ensures
        line_end(data, j) == p + l.len(),
    decreases p + l.len() - j,
{
    assert(data[j] == l[j - p]);
    if j == p + l.len() - 1 && data[j] != 0x0a {
        assert(l.last() == data[j]);
        assert(line_end(data, j + 1) == data.len());
    }
    if j < p + l.len() - 1 {
        lemma_line_end_of_line(data, p, l, j + 1);
    }
}

proof fn lemma_quote(l: Seq<u8>)
    requires
        is_open_line(l),
    ensures
        is_open_line(quote(l)),
        is_line(l) ==> is_line(quote(l)),
        !is_envelope(quote(l)),
        unquote(quote(l)) == l,
{
    let q = quote(l);
    if needs_quote(l) {
        let k = choose|k: int|
            0 <= k && (forall|j: int| 0 <= j < k ==> #[trigger] l[j] == 0x3e) && #[trigger] from_at(
                l,
                k,
            );
        assert(q.subrange(k + 1, k + 6) =~= l.subrange(k, k + 5));
        assert(from_at(q, k + 1));
        assert forall|j: int| 0 <= j < k + 1 implies #[trigger] q[j] == 0x3e by {
            if j > 0 {
                assert(q[j] == l[j - 1]);
            }
        }
        assert(is_quoted_envelope(q));
        assert(q.subrange(1, q.len() as int) =~= l);
        assert(q[0] == 0x3e);
        if is_envelope(q) {
            assert(q[0] == q.subrange(0, 5)[0]);
        }
        assert forall|j: int| 0 <= j < q.len() - 1 implies q[j] != 0x0a by {
            if j > 0 {
                assert(q[j] == l[j - 1]);
            }
        }
        assert(q.last() == l.last());
    } else {
        if is_envelope(l) {
            assert(forall|j: int| 0 <= j < 0 ==> #[trigger] l[j] == 0x3e);
            assert(needs_quote(l));
        }
        if is_quoted_envelope(l) {
            let k = choose|k: int|
                1 <= k && (forall|j: int| 0 <= j < k ==> #[trigger] l[j] == 0x3e) && #[trigger] from_at(
                    l,
                    k,
                );
            assert(needs_quote(l));
        }
    }
}

proof fn lemma_concat_nonempty(ls: Seq<Seq<u8>>)
    requires
        ls.len() > 0,
        ls[0].len() > 0,
    ensures
        concat(ls).len() > 0,
{
}

/// Scanning quoted body lines in the state after an envelope line gathers the
/// body, and stops after the next envelope line or at the end.
proof fn lemma_scan_body(
    pre: Seq<u8>,
    ls: Seq<Seq<u8>>,
    rest: Seq<(Seq<u8>, Seq<Seq<u8>>)>,
    m: Seq<u8>,
)
    requires
        forall|k: int| 0 <= k < ls.len() ==> is_open_line(#[trigger] ls[k]),
        forall|k: int| 0 <= k < ls.len() - 1 ==> is_line(#[trigger] ls[k]),
        rest.len() > 0 ==> is_line(rest[0].0) && is_envelope(rest[0].0) && (ls.len() > 0
            ==> is_line(ls.last())),
        ls.len() > 0 || m.len() > 0,
    ensures
        scan_message(pre + quoted_body(ls) + mailbox(rest), pre.len() as int, true, m) == (
            pre.len() + quoted_body(ls).len() + if rest.len() > 0 {
                rest[0].0.len() as int
            } else {
                0int
            },
            true,
            m + concat(ls),
        ),
    decreases ls.len(),
{
    let data = pre + quoted_body(ls) + mailbox(rest);
    let p = pre.len() as int;
    if ls.len() == 0 {
        assert(m + concat(ls) =~= m);
        assert(data =~= pre + mailbox(rest));
        if rest.len() > 0 {
            let env = rest[0].0;
            assert(data.subrange(p, p + env.len()) =~= env);
            lemma_line_end_of_line(data, p, env, p);
        }
    } else {
        let l = ls[0];
        let q = quote(l);
        let tail = ls.drop_first();
        lemma_quote(l);
        assert(data.subrange(p, p + q.len()) =~= q);
        if ls.len() == 1 {
            assert(quoted_body(tail) =~= Seq::empty());
            if rest.len() == 0 {
                assert(mailbox(rest) =~= Seq::empty());
                assert(data.len() == p + q.len());
            } else {
                assert(ls.last() == l);
            }
        } else {
            assert(is_line(ls[0]));
        }
        lemma_line_end_of_line(data, p, q, p);
        let pre2 = pre + q;
        assert(data =~= pre2 + quoted_body(tail) + mailbox(rest));
        assert forall|k: int| 0 <= k < tail.len() implies is_open_line(#[trigger] tail[k]) by {
            assert(tail[k] == ls[k + 1]);
        }
        assert forall|k: int| 0 <= k < tail.len() - 1 implies is_line(#[trigger] tail[k]) by {
            assert(tail[k] == ls[k + 1]);
        }
        if tail.len() > 0 {
            assert(tail.last() == ls.last());
        }
        lemma_scan_body(pre2, tail, rest, m + l);
        assert(m + l + concat(ls.drop_first()) =~= m + concat(ls));
    }
}

/// From the position just after an envelope line, the calls of `next` yield
/// the bodies in order and then the end.
proof fn lemma_messages_after_envelope(
    pre: Seq<u8>,
    body: Seq<Seq<u8>>,
    rest: Seq<(Seq<u8>, Seq<Seq<u8>>)>,
)
    requires
        is_body(body, rest.len() > 0),
        is_mail_list(rest),
    ensures
        messages_from(
            pre + quoted_body(body) + mailbox(rest),
            pre.len() as int,
            true,
            rest.len() + 2,
        ) == seq![Some(concat(body))] + bodies_then_end(rest),
    decreases rest.len(),
{
    let data = pre + quoted_body(body) + mailbox(rest);
    let p = pre.len() as int;
    if rest.len() > 0 {
        assert(is_mail(rest[0], 0 < rest.len() - 1));
    }
    assert(is_open_line(body[0]));
    lemma_scan_body(pre, body, rest, Seq::empty());
    assert(Seq::<u8>::empty() + concat(body) =~= concat(body));
    lemma_concat_nonempty(body);
    let r = scan_message(data, p, true, Seq::empty());
    assert(yielded(data, p, true) == Some(concat(body)));
    assert(messages_from(data, p, true, rest.len() + 2) == seq![yielded(data, p, true)]
        + messages_from(data, r.0, r.1, (rest.len() + 1) as nat));
    if rest.len() == 0 {
        assert(data =~= pre + quoted_body(body));
        assert(r.0 == data.len());
        let r2 = scan_message(data, r.0, r.1, Seq::empty());
        assert(messages_from(data, r2.0, r2.1, 0) =~= Seq::empty());
        assert(messages_from(data, r.0, r.1, 1) =~= seq![yielded(data, r.0, r.1)]);
        assert(bodies_then_end(rest) =~= seq![None]);
        assert(yielded(data, r.0, r.1) is None);
        assert(messages_from(data, p, true, rest.len() + 2) =~= seq![Some(concat(body))]
            + bodies_then_end(rest));
    } else {
        let next = rest[0];
        let rest2 = rest.drop_first();
        let pre2 = pre + quoted_body(body) + next.0;
        assert(data =~= pre2 + quoted_body(next.1) + mailbox(rest2));
        assert forall|k: int| 0 <= k < rest2.len() implies is_mail(
            #[trigger] rest2[k],
            k < rest2.len() - 1,
        ) by {
            assert(rest2[k] == rest[k + 1]);
            assert(is_mail(rest[k + 1], k + 1 < rest.len() - 1));
        }
        lemma_messages_after_envelope(pre2, next.1, rest2);
        assert(bodies_then_end(rest) == seq![Some(concat(next.1))] + bodies_then_end(rest2));
        assert(r.0 == pre2.len() && r.1);
        assert((rest.len() + 1) as nat == rest2.len() + 2);
        assert(messages_from(data, p, true, rest.len() + 2) =~= seq![Some(concat(body))]
            + bodies_then_end(rest));
    }
}

/// Round trip: a mailbox written from messages, each an envelope line and a
/// body whose lines are quoted on the way in, is split back into exactly those
/// bodies, in order, with the envelope lines gone; the last body, which may end
/// without a line break, comes out in full once, and one more call yields none.
pub proof fn law_mailbox_round_trip(msgs: Seq<(Seq<u8>, Seq<Seq<u8>>)>)
    requires
        is_mail_list(msgs),
    ensures
        messages_from(mailbox(msgs), 0, false, msgs.len() + 1) == bodies_then_end(msgs),
{
    let data = mailbox(msgs);
    if msgs.len() == 0 {
        let r = scan_message(data, 0, false, Seq::empty());
        assert(messages_from(data, r.0, r.1, 0) =~= Seq::empty());
        assert(messages_from(data, 0, false, 1) =~= seq![yielded(data, 0, false)]);
        assert(bodies_then_end(msgs) =~= seq![None]);
        assert(yielded(data, 0, false) is None);
    } else {
        let first = msgs[0];
        let rest = msgs.drop_first();
        assert(is_mail(first, 0 < msgs.len() - 1));
        assert forall|k: int| 0 <= k < rest.len() implies is_mail(
            #[trigger] rest[k],
            k < rest.len() - 1,
        ) by {
            assert(rest[k] == msgs[k + 1]);
            assert(is_mail(msgs[k + 1], k + 1 < msgs.len() - 1));
        }
        let env = first.0;
        assert(data =~= env + quoted_body(first.1) + mailbox(rest));
        assert(data.subrange(0, env.len() as int) =~= env);
        lemma_line_end_of_line(data, 0, env, 0);
        assert(scan_message(data, 0, false, Seq::empty()) == scan_message(
            data,
            env.len() as int,
            true,
            Seq::empty(),
        ));
        lemma_messages_after_envelope(env, first.1, rest);
        let n = msgs.len();
        let r = scan_message(data, 0, false, Seq::empty());
        assert(messages_from(data, 0, false, n + 1) == seq![yielded(data, 0, false)]
            + messages_from(data, r.0, r.1, n as nat));
        assert(messages_from(data, env.len() as int, true, n + 1) == seq![
            yielded(data, env.len() as int, true),
        ] + messages_from(data, r.0, r.1, n as nat));
    }
}

} // verus!
