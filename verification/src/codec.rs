//! The message codec: line-JSON framing of the closed set of messages that
//! cross the loader pipe.
//!
//! Each message is one line holding a JSON object in a fixed canonical
//! shape: the fields stand in a fixed order, strings escape the quote, the
//! backslash, and the three common control characters, and an absent
//! optional field is `null`.  `encode_message` is proved to produce exactly
//! that shape, and `decode_message` is proved to accept a line exactly when
//! it is the canonical encoding of some message — the line it accepts is
//! the encoding of the message it returns, and a line it refuses encodes no
//! message at all and is treated by the caller as human-readable output.

use vstd::prelude::*;

verus! {

/// A message of the supervisor protocol.
///
/// Inbound from the loader: `ImportComplete`, `ImportError`,
/// `ForkResponse`, `ChildComplete`, `ChildError`, `UnknownError`.
/// Outbound from the supervisor: `ForkRequest`, `ExitRequest`.
#[derive(Debug, Clone, PartialEq)]
pub enum Message {
    /// The loader finished its pre-import phase.
    ImportComplete,
    /// The loader crashed before finishing its pre-import phase.
    ImportError { error: String, traceback: Option<String> },
    /// Ask the loader to fork a worker and run `code` in it.
    ForkRequest { request_id: String, request_name: String, code: String },
    /// A worker has been spawned.
    ForkResponse { request_id: String, request_name: String, child_pid: i32 },
    /// A worker returned normally, with an optional serialised return value.
    ChildComplete { result: Option<String> },
    /// A worker raised.
    ChildError { error: String, traceback: Option<String> },
    /// A loader-level error with no associated request.
    UnknownError { error: String },
    /// Ask a worker to terminate cooperatively.
    ExitRequest { request_id: String },
}

/// The mathematical value of a `Message`.
#[verifier::ext_equal]
pub enum MessageV {
    ImportComplete,
    ImportError { error: Seq<char>, traceback: Option<Seq<char>> },
    ForkRequest { request_id: Seq<char>, request_name: Seq<char>, code: Seq<char> },
    ForkResponse { request_id: Seq<char>, request_name: Seq<char>, child_pid: i32 },
    ChildComplete { result: Option<Seq<char>> },
    ChildError { error: Seq<char>, traceback: Option<Seq<char>> },
    UnknownError { error: Seq<char> },
    ExitRequest { request_id: Seq<char> },
}

/// The view of an optional string.
pub open spec fn opt_view(o: Option<String>) -> Option<Seq<char>> {
    match o {
        None => None,
        Some(s) => Some(s@),
    }
}

impl View for Message {
    type V = MessageV;

    open spec fn view(&self) -> MessageV {
        match self {
            Message::ImportComplete => MessageV::ImportComplete,
            Message::ImportError { error, traceback } => MessageV::ImportError {
                error: error@,
                traceback: opt_view(*traceback),
            },
            Message::ForkRequest { request_id, request_name, code } => MessageV::ForkRequest {
                request_id: request_id@,
                request_name: request_name@,
                code: code@,
            },
            Message::ForkResponse { request_id, request_name, child_pid } => MessageV::ForkResponse {
                request_id: request_id@,
                request_name: request_name@,
                child_pid: *child_pid,
            },
            Message::ChildComplete { result } => MessageV::ChildComplete {
                result: opt_view(*result),
            },
            Message::ChildError { error, traceback } => MessageV::ChildError {
                error: error@,
                traceback: opt_view(*traceback),
            },
            Message::UnknownError { error } => MessageV::UnknownError { error: error@ },
            Message::ExitRequest { request_id } => MessageV::ExitRequest {
                request_id: request_id@,
            },
        }
    }
}

/// The canonical escape of one character inside a JSON string.
pub open spec fn escape_char(c: char) -> Seq<char> {
    if c == '"' {
        seq!['\\', '"']
    } else if c == '\\' {
        seq!['\\', '\\']
    } else if c == '\n' {
        seq!['\\', 'n']
    } else if c == '\r' {
        seq!['\\', 'r']
    } else if c == '\t' {
        seq!['\\', 't']
    } else {
        seq![c]
    }
}

/// The canonical escape of a string body.
pub open spec fn escape(s: Seq<char>) -> Seq<char>
    decreases s.len(),
{
    if s.len() == 0 {
        Seq::empty()
    } else {
        escape_char(s.first()) + escape(s.drop_first())
    }
}

/// A quoted JSON string.
pub open spec fn quoted(v: Seq<char>) -> Seq<char> {
    seq!['"'] + escape(v) + seq!['"']
}

/// An optional string field: `null` or a quoted string.
pub open spec fn opt_repr(o: Option<Seq<char>>) -> Seq<char> {
    match o {
        None => "null"@,
        Some(v) => quoted(v),
    }
}

/// The character of one decimal digit.
pub open spec fn digit_char(d: nat) -> char {
    if d == 0 {
        '0'
    } else if d == 1 {
        '1'
    } else if d == 2 {
        '2'
    } else if d == 3 {
        '3'
    } else if d == 4 {
        '4'
    } else if d == 5 {
        '5'
    } else if d == 6 {
        '6'
    } else if d == 7 {
        '7'
    } else if d == 8 {
        '8'
    } else {
        '9'
    }
}

/// The decimal digits of a natural number, most significant first.
pub open spec fn dec_digits(n: nat) -> Seq<char>
    decreases n,
{
    if n < 10 {
        seq![digit_char(n)]
    } else {
        dec_digits(n / 10).push(digit_char(n % 10))
    }
}

/// The decimal representation of an integer.
pub open spec fn int_repr(v: int) -> Seq<char> {
    if v < 0 {
        seq!['-'] + dec_digits((-v) as nat)
    } else {
        dec_digits(v as nat)
    }
}

/// The canonical line encoding a message (without the terminating newline).
pub open spec fn spec_encode(m: MessageV) -> Seq<char> {
    match m {
        MessageV::ImportComplete => "{\"name\":\"import_complete\"}"@,
        MessageV::ImportError { error, traceback } => "{\"name\":\"import_error\",\"error\":"@
            + quoted(error) + ",\"traceback\":"@ + opt_repr(traceback) + "}"@,
        MessageV::ForkRequest { request_id, request_name, code } => "{\"name\":\"fork_request\",\"request_id\":"@
            + quoted(request_id) + ",\"request_name\":"@ + quoted(request_name) + ",\"code\":"@
            + quoted(code) + "}"@,
        MessageV::ForkResponse { request_id, request_name, child_pid } => "{\"name\":\"fork_response\",\"request_id\":"@
            + quoted(request_id) + ",\"request_name\":"@ + quoted(request_name)
            + ",\"child_pid\":"@ + int_repr(child_pid as int) + "}"@,
        MessageV::ChildComplete { result } => "{\"name\":\"child_complete\",\"result\":"@
            + opt_repr(result) + "}"@,
        MessageV::ChildError { error, traceback } => "{\"name\":\"child_error\",\"error\":"@
            + quoted(error) + ",\"traceback\":"@ + opt_repr(traceback) + "}"@,
        MessageV::UnknownError { error } => "{\"name\":\"unknown_error\",\"error\":"@ + quoted(
            error,
        ) + "}"@,
        MessageV::ExitRequest { request_id } => "{\"name\":\"exit_request\",\"request_id\":"@
            + quoted(request_id) + "}"@,
    }
}

/// Relies on String::push: appends the given character to the end of the
/// string.
#[verifier::external_body]
pub(crate) fn push_char(s: &mut String, c: char)
    ensures
        final(s)@ == old(s)@.push(c),
{
    s.push(c);
}

/// Escaping distributes over appending one character at the back.
proof fn lemma_escape_push(s: Seq<char>, c: char)
    ensures
        escape(s.push(c)) == escape(s) + escape_char(c),
    decreases s.len(),
{
    reveal_with_fuel(escape, 3);
    if s.len() == 0 {
        assert(s.push(c).drop_first() =~= Seq::<char>::empty());
        assert(s.push(c).first() == c);
        assert(escape(s.push(c)) =~= escape(s) + escape_char(c));
    } else {
        lemma_escape_push(s.drop_first(), c);
        assert(s.push(c).drop_first() =~= s.drop_first().push(c));
        assert(s.push(c).first() == s.first());
        assert(escape(s.push(c)) == escape_char(s.first()) + escape(s.drop_first().push(c)));
        assert(escape(s) == escape_char(s.first()) + escape(s.drop_first()));
        assert(escape(s.push(c)) =~= escape(s) + escape_char(c));
    }
}

/// Appends the canonical escape of `v`.
fn append_escaped(out: &mut String, v: &str)
    ensures
        final(out)@ == old(out)@ + escape(v@),
{
    let n = v.unicode_len();
    assert(v@.take(0) =~= Seq::<char>::empty());
    assert(out@ + escape(v@.take(0)) =~= out@);
    for i in 0..n
        invariant
            n == v@.len(),
            out@ == old(out)@ + escape(v@.take(i as int)),
    {
        let c = v.get_char(i);
        if c == '"' {
            push_char(out, '\\');
            push_char(out, '"');
        } else if c == '\\' {
            push_char(out, '\\');
            push_char(out, '\\');
        } else if c == '\n' {
            push_char(out, '\\');
            push_char(out, 'n');
        } else if c == '\r' {
            push_char(out, '\\');
            push_char(out, 'r');
        } else if c == '\t' {
            push_char(out, '\\');
            push_char(out, 't');
        } else {
            push_char(out, c);
        }
        proof {
            lemma_escape_push(v@.take(i as int), v@[i as int]);
            assert(v@.take(i + 1) =~= v@.take(i as int).push(v@[i as int]));
            assert(out@ =~= old(out)@ + escape(v@.take(i + 1)));
        }
    }
    assert(v@.take(n as int) =~= v@);
}

/// Appends a quoted JSON string.
pub(crate) fn append_quoted(out: &mut String, v: &str)
    ensures
        final(out)@ == old(out)@ + quoted(v@),
{
    push_char(out, '"');
    append_escaped(out, v);
    push_char(out, '"');
    assert(out@ =~= old(out)@ + quoted(v@));
}

/// Appends `null` or a quoted string.
fn append_opt(out: &mut String, v: &Option<String>)
    ensures
        final(out)@ == old(out)@ + opt_repr(opt_view(*v)),
{
    match v {
        None => {
            out.append("null");
        }
        Some(s) => {
            append_quoted(out, s.as_str());
        }
    }
}

/// The digit character for `d`.
fn digit_to_char(d: u64) -> (c: char)
    requires
        d < 10,
    ensures
        c == digit_char(d as nat),
{
    if d == 0 {
        '0'
    } else if d == 1 {
        '1'
    } else if d == 2 {
        '2'
    } else if d == 3 {
        '3'
    } else if d == 4 {
        '4'
    } else if d == 5 {
        '5'
    } else if d == 6 {
        '6'
    } else if d == 7 {
        '7'
    } else if d == 8 {
        '8'
    } else {
        '9'
    }
}

/// Appends the decimal digits of `n`, most significant first.
pub(crate) fn append_u64_digits(out: &mut String, n: u64)
    ensures
        final(out)@ == old(out)@ + dec_digits(n as nat),
    decreases n,
{
    if n < 10 {
        push_char(out, digit_to_char(n));
        assert(out@ =~= old(out)@ + dec_digits(n as nat));
    } else {
        append_u64_digits(out, n / 10);
        push_char(out, digit_to_char(n % 10));
        assert(out@ =~= old(out)@ + dec_digits(n as nat));
    }
}

/// Appends the decimal representation of `pid`.
fn append_i32(out: &mut String, pid: i32)
    ensures
        final(out)@ == old(out)@ + int_repr(pid as int),
{
    let wide: i64 = pid as i64;
    if wide < 0 {
        push_char(out, '-');
        let mag: u64 = (-wide) as u64;
        append_u64_digits(out, mag);
        assert(out@ =~= old(out)@ + int_repr(pid as int));
    } else {
        append_u64_digits(out, wide as u64);
    }
}

/// The decimal representation of an `i32`, as an owned string.
pub fn i32_string(v: i32) -> (r: String)
    ensures
        r@ == int_repr(v as int),
{
    let mut out = String::new();
    append_i32(&mut out, v);
    out
}

/// Encodes a message as its canonical line (without the newline).
pub fn encode_message(m: &Message) -> (r: String)
    ensures
        r@ == spec_encode(m@),
{
    let mut out = String::new();
    match m {
        Message::ImportComplete => {
            out.append("{\"name\":\"import_complete\"}");
        }
        Message::ImportError { error, traceback } => {
            out.append("{\"name\":\"import_error\",\"error\":");
            append_quoted(&mut out, error.as_str());
            out.append(",\"traceback\":");
            append_opt(&mut out, traceback);
            out.append("}");
        }
        Message::ForkRequest { request_id, request_name, code } => {
            out.append("{\"name\":\"fork_request\",\"request_id\":");
            append_quoted(&mut out, request_id.as_str());
            out.append(",\"request_name\":");
            append_quoted(&mut out, request_name.as_str());
            out.append(",\"code\":");
            append_quoted(&mut out, code.as_str());
            out.append("}");
        }
        Message::ForkResponse { request_id, request_name, child_pid } => {
            out.append("{\"name\":\"fork_response\",\"request_id\":");
            append_quoted(&mut out, request_id.as_str());
            out.append(",\"request_name\":");
            append_quoted(&mut out, request_name.as_str());
            out.append(",\"child_pid\":");
            append_i32(&mut out, *child_pid);
            out.append("}");
        }
        Message::ChildComplete { result } => {
            out.append("{\"name\":\"child_complete\",\"result\":");
            append_opt(&mut out, result);
            out.append("}");
        }
        Message::ChildError { error, traceback } => {
            out.append("{\"name\":\"child_error\",\"error\":");
            append_quoted(&mut out, error.as_str());
            out.append(",\"traceback\":");
            append_opt(&mut out, traceback);
            out.append("}");
        }
        Message::UnknownError { error } => {
            out.append("{\"name\":\"unknown_error\",\"error\":");
            append_quoted(&mut out, error.as_str());
            out.append("}");
        }
        Message::ExitRequest { request_id } => {
            out.append("{\"name\":\"exit_request\",\"request_id\":");
            append_quoted(&mut out, request_id.as_str());
            out.append("}");
        }
    }
    assert(out@ =~= spec_encode(m@));
    out
}

/// The characters of a string slice.
pub(crate) fn str_chars(s: &str) -> (v: Vec<char>)
    ensures
        v@ == s@,
{
    let n = s.unicode_len();
    let mut v: Vec<char> = Vec::new();
    for i in 0..n
        invariant
            n == s@.len(),
            v@ == s@.take(i as int),
    {
        v.push(s.get_char(i));
        assert(v@ =~= s@.take(i + 1));
    }
    assert(s@.take(n as int) =~= s@);
    v
}

/// Advances past `lit` exactly when the characters at `i` spell it.
pub(crate) fn lp_expect(v: &Vec<char>, i: usize, lit: &str) -> (r: Option<usize>)
    ensures
        r matches Some(j) ==> i + lit@.len() == j && j <= v@.len() && v@.subrange(
            i as int,
            j as int,
        ) == lit@,
        i + lit@.len() <= v@.len() && v@.subrange(i as int, i + lit@.len()) == lit@ ==> r is Some,
{
    let ghost canon = i + lit@.len() <= v@.len() && v@.subrange(i as int, i + lit@.len()) == lit@;
    let lc = str_chars(lit);
    let n = v.len();
    let l = lc.len();
    if i > n || n - i < l {
        proof {
            assert(!canon);
        }
        return None;
    }
    let mut k: usize = 0;
    while k < l
        invariant
            0 <= k <= l,
            i + l <= n,
            l == lc@.len(),
            n == v@.len(),
            lc@ == lit@,
            forall|m: int| 0 <= m < k ==> v@[i + m] == lc@[m],
            canon == (i + lit@.len() <= v@.len() && v@.subrange(i as int, i + lit@.len()) == lit@),
        decreases l - k,
    {
        if v[i + k] != lc[k] {
            proof {
                if canon {
                    assert(v@[i + k] == v@.subrange(i as int, i + lit@.len())[k as int]);
                }
                assert(!canon);
            }
            return None;
        }
        k = k + 1;
    }
    proof {
        assert(v@.subrange(i as int, (i + l) as int) =~= lit@);
    }
    Some(i + l)
}

/// Reads a quoted string starting at `i`, undoing the canonical escapes.
/// Exactly the canonical quoted regions are accepted: on success the
/// consumed region is the quote of the result, and where any quoted region
/// starts at `i` the read succeeds.
fn lp_string(v: &Vec<char>, i: usize) -> (r: Option<(String, usize)>)
    ensures
        r matches Some(p) ==> i < p.1 <= v@.len() && v@.subrange(i as int, p.1 as int) == quoted(
            p.0@,
        ),
        (exists|w: Seq<char>, jq: int|
            i + 2 <= jq <= v@.len() && v@.subrange(i as int, jq) == quoted(w)) ==> r is Some,
{
    let ghost canon = exists|w: Seq<char>, jq: int|
        i + 2 <= jq <= v@.len() && v@.subrange(i as int, jq) == quoted(w);
    let ghost (cw, cjq): (Seq<char>, int) = if canon {
        choose|w: Seq<char>, jq: int|
            i + 2 <= jq <= v@.len() && v@.subrange(i as int, jq) == quoted(w)
    } else {
        (Seq::empty(), 0)
    };
    proof {
        if canon {
            lemma_quoted_decompose(v@, i as int, cw, cjq);
        }
    }
    let n = v.len();
    if i >= n || v[i] != '"' {
        proof {
            assert(!canon);
        }
        return None;
    }
    let mut j = i + 1;
    let mut out = String::new();
    proof {
        assert(v@.subrange(i + 1, i + 1) =~= escape(Seq::<char>::empty()));
        assert(escape(out@) =~= Seq::<char>::empty());
        if canon {
            assert(cw == out@ + cw);
        }
    }
    while j < n
        invariant
            i < j <= n,
            n == v@.len(),
            v@[i as int] == '"',
            v@.subrange(i + 1, j as int) == escape(out@),
            canon == (exists|w: Seq<char>, jq: int|
                i + 2 <= jq <= v@.len() && v@.subrange(i as int, jq) == quoted(w)),
            canon ==> exists|w2: Seq<char>|
                cw == out@ + w2 && j <= cjq <= v@.len() && v@.subrange(j as int, cjq) == escape(w2)
                    + seq!['"'],
        decreases n - j,
    {
        let ghost w2: Seq<char> = if canon {
            choose|w2: Seq<char>|
                cw == out@ + w2 && j <= cjq <= v@.len() && v@.subrange(j as int, cjq) == escape(w2)
                    + seq!['"']
        } else {
            Seq::empty()
        };
        proof {
            if canon {
                lemma_escape_head(v@, j as int, cjq, w2);
            }
        }
        let c = v[j];
        if c == '"' {
            proof {
                assert(quoted(out@).len() == 2 + escape(out@).len());
                assert(escape(out@).len() == j - i - 1);
                assert forall|k: int|
                    0 <= k < quoted(out@).len() implies quoted(out@)[k] == v@.subrange(
                    i as int,
                    j + 1,
                )[k] by {
                    assert(v@.subrange(i as int, j + 1)[k] == v@[i + k]);
                    if k == 0 {
                        assert(quoted(out@)[0] == '"');
                        assert(v@[i as int] == '"');
                    } else if k < 1 + escape(out@).len() {
                        assert(quoted(out@)[k] == escape(out@)[k - 1]);
                        assert(v@.subrange(i + 1, j as int)[k - 1] == v@[i + k]);
                    } else {
                        assert(k == 1 + escape(out@).len());
                        assert(i + k == j);
                        assert(quoted(out@)[k] == '"');
                        assert(v@[j as int] == '"');
                    }
                }
                assert(v@.subrange(i as int, j + 1) =~= quoted(out@));
            }
            return Some((out, j + 1));
        } else if c == '\\' {
            proof {
                if canon {
                    assert(w2.len() > 0);
                    assert(escape_char(w2.first()).len() == 2) by {
                        if escape_char(w2.first()).len() == 1 {
                            assert(escape_char(w2.first())[0] == w2.first());
                            assert(w2.first() == '\\');
                        }
                    }
                    assert(j + 1 < cjq <= n);
                }
            }
            if j + 1 >= n {
                proof {
                    assert(!canon);
                }
                return None;
            }
            let d = v[j + 1];
            let ghost prev = out@;
            if d == '"' {
                push_char(&mut out, '"');
            } else if d == '\\' {
                push_char(&mut out, '\\');
            } else if d == 'n' {
                push_char(&mut out, '\n');
            } else if d == 'r' {
                push_char(&mut out, '\r');
            } else if d == 't' {
                push_char(&mut out, '\t');
            } else {
                proof {
                    if canon {
                        assert(v@[j + 1] == escape_char(w2.first())[1]);
                        assert(false);
                    }
                }
                return None;
            }
            proof {
                assert(escape_char(out@.last()) =~= seq!['\\', d]);
                lemma_escape_push(prev, out@.last());
                assert(v@.subrange(i + 1, j + 2) =~= v@.subrange(i + 1, j as int) + seq![
                    '\\',
                    d,
                ]);
                assert(v@.subrange(i + 1, j + 2) == escape(out@));
                if canon {
                    assert(escape_char(w2.first()) =~= seq!['\\', d]);
                    assert(w2.first() == out@.last()) by {
                        let f = w2.first();
                        assert(escape_char(f)[1] == d);
                        if f == '"' {
                        } else if f == '\\' {
                        } else if f == '\n' {
                        } else if f == '\r' {
                        } else if f == '\t' {
                        } else {
                            assert(escape_char(f).len() == 1);
                        }
                    }
                    assert(cw == out@ + w2.drop_first()) by {
                        assert(cw =~= prev.push(w2.first()) + w2.drop_first());
                    }
                    assert(v@.subrange(j + 2, cjq) == escape(w2.drop_first()) + seq!['"']);
                }
            }
            j = j + 2;
        } else if c == '\n' || c == '\r' || c == '\t' {
            // A raw control character never stands in a canonical quoted
            // region; the line is refused.
            proof {
                if canon {
                    if w2.len() > 0 {
                        if escape_char(w2.first()).len() == 1 {
                            assert(escape_char(w2.first())[0] == w2.first());
                        }
                    }
                    assert(false);
                }
            }
            return None;
        } else {
            let ghost prev = out@;
            push_char(&mut out, c);
            proof {
                assert(escape_char(c) =~= seq![c]);
                lemma_escape_push(prev, c);
                assert(v@.subrange(i + 1, j + 1) =~= v@.subrange(i + 1, j as int) + seq![c]);
                assert(v@.subrange(i + 1, j + 1) == escape(out@));
                if canon {
                    assert(w2.len() > 0);
                    assert(w2.first() == c) by {
                        if escape_char(w2.first()).len() == 2 {
                            assert(escape_char(w2.first())[0] == '\\');
                        } else {
                            assert(escape_char(w2.first())[0] == w2.first());
                        }
                    }
                    assert(cw == out@ + w2.drop_first()) by {
                        assert(cw =~= prev.push(c) + w2.drop_first());
                    }
                    assert(v@.subrange(j + 1, cjq) == escape(w2.drop_first()) + seq!['"']);
                }
            }
            j = j + 1;
        }
    }
    proof {
        if canon {
            let w2 = choose|w2: Seq<char>|
                cw == out@ + w2 && j <= cjq <= v@.len() && v@.subrange(j as int, cjq) == escape(w2)
                    + seq!['"'];
            assert((escape(w2) + seq!['"']).len() >= 1);
            assert(cjq > j);
            assert(false);
        }
    }
    None
}

/// Reads `null` or a quoted string starting at `i`.  Exactly the canonical
/// optional-string regions are accepted.
fn lp_opt_string(v: &Vec<char>, i: usize) -> (r: Option<(Option<String>, usize)>)
    ensures
        r matches Some(p) ==> i <= p.1 <= v@.len() && v@.subrange(i as int, p.1 as int)
            == opt_repr(opt_view(p.0)),
        (exists|o: Option<Seq<char>>, jo: int|
            i <= jo <= v@.len() && v@.subrange(i as int, jo) == opt_repr(o)) ==> r is Some,
{
    let ghost canon = exists|o: Option<Seq<char>>, jo: int|
        i <= jo <= v@.len() && v@.subrange(i as int, jo) == opt_repr(o);
    match lp_expect(v, i, "null") {
        Some(j) => Some((None, j)),
        None => match lp_string(v, i) {
            Some((s, j)) => Some((Some(s), j)),
            None => {
                proof {
                    if canon {
                        let (co, cjo): (Option<Seq<char>>, int) = choose|
                            o: Option<Seq<char>>,
                            jo: int,
                        | i <= jo <= v@.len() && v@.subrange(i as int, jo) == opt_repr(o);
                        match co {
                            None => {
                                assert(v@.subrange(i as int, cjo) == "null"@);
                                assert(cjo - i == "null"@.len());
                                assert(v@.subrange(i as int, i + "null"@.len()) == "null"@);
                                assert(false);
                            }
                            Some(w) => {
                                assert(v@.subrange(i as int, cjo) == quoted(w));
                                assert(cjo - i == quoted(w).len());
                                assert(quoted(w).len() >= 2);
                                assert(false);
                            }
                        }
                    }
                }
                None
            }
        },
    }
}

/// Reads a decimal integer starting at `i`, stopping at the first
/// non-digit.  Exactly the canonical integer regions are accepted: no
/// leading zero, no negative zero, and the value fits an `i32`.
fn lp_i32(v: &Vec<char>, i: usize) -> (r: Option<(i32, usize)>)
    ensures
        r matches Some(p) ==> i <= p.1 <= v@.len() && v@.subrange(i as int, p.1 as int)
            == int_repr(p.0 as int) && (p.1 == v@.len() || !is_digit_char(v@[p.1 as int])),
        (exists|val: i32, jn: int|
            i <= jn <= v@.len() && v@.subrange(i as int, jn) == int_repr(val as int) && (jn
                == v@.len() || !is_digit_char(v@[jn]))) ==> r is Some,
{
    let ghost canon = exists|val: i32, jn: int|
        i <= jn <= v@.len() && v@.subrange(i as int, jn) == int_repr(val as int) && (jn
            == v@.len() || !is_digit_char(v@[jn]));
    let ghost (cval, cjn): (i32, int) = if canon {
        choose|val: i32, jn: int|
            i <= jn <= v@.len() && v@.subrange(i as int, jn) == int_repr(val as int) && (jn
                == v@.len() || !is_digit_char(v@[jn]))
    } else {
        (0, 0)
    };
    let ghost cmag = (if cval < 0 { -(cval as int) } else { cval as int }) as nat;
    let ghost cdigits = dec_digits(cmag);
    let ghost cstart: int = if cval < 0 { i + 1 } else { i as int };
    proof {
        if canon {
            lemma_int_repr_decompose(v@, i as int, cval as int, cjn);
            lemma_dec_digits_props(cmag);
        }
    }
    let n = v.len();
    if i >= n {
        proof {
            if canon {
                assert(int_repr(cval as int).len() >= 1);
                assert(false);
            }
        }
        return None;
    }
    let mut j = i;
    let mut neg = false;
    if v[j] == '-' {
        neg = true;
        j = j + 1;
    }
    proof {
        if canon {
            assert(is_digit_char('-') == false);
            assert(neg == (cval < 0));
            assert(j == cstart);
        }
    }
    let di = j;
    let mut acc: u64 = 0;
    let mut digits: usize = 0;
    while j < n && v[j] >= '0' && v[j] <= '9'
        invariant
            i <= di <= j <= n,
            n == v@.len(),
            digits == j - di,
            forall|k: int| di <= k < j ==> is_digit_char(#[trigger] v@[k]),
            acc == val_acc(v@.subrange(di as int, j as int), 0),
            acc <= 0x8000_0000,
            canon == (exists|val: i32, jn: int|
                i <= jn <= v@.len() && v@.subrange(i as int, jn) == int_repr(val as int) && (jn
                    == v@.len() || !is_digit_char(v@[jn]))),
            canon ==> cstart == di && di <= j <= cjn && cjn <= n && v@.subrange(cstart, cjn)
                == cdigits && all_digits(cdigits) && val_acc(cdigits, 0) == cmag && cmag
                <= 0x8000_0000 && (cjn == n || !is_digit_char(v@[cjn])),
        decreases n - j,
    {
        let c = v[j];
        let d: u64 = (c as u64) - 48;
        let ghost prevregion = v@.subrange(di as int, j as int);
        proof {
            assert(is_digit_char(c));
            assert(digit_val(c) == d);
            assert(v@.subrange(di as int, j + 1) =~= prevregion.push(c));
            lemma_val_acc_push(prevregion, 0, c);
            if canon {
                assert(j < cjn) by {
                    if j >= cjn {
                        assert(cjn == n || !is_digit_char(v@[cjn]));
                        assert(j < n && is_digit_char(v@[j as int]));
                        if j == cjn {
                        } else {
                            assert(v@[cjn] == cdigits[cjn - cstart]);
                        }
                    }
                }
                assert(v@.subrange(di as int, j + 1) =~= cdigits.take(j + 1 - cstart)) by {
                    assert(forall|k: int|
                        0 <= k < j + 1 - cstart ==> v@[cstart + k] == #[trigger] cdigits[k]);
                }
                lemma_val_acc_prefix_le(cdigits, j + 1 - cstart);
            }
        }
        acc = acc * 10 + d;
        if acc > 0x8000_0000 {
            proof {
                assert(!canon);
            }
            return None;
        }
        digits = digits + 1;
        j = j + 1;
    }
    proof {
        if canon {
            assert(j == cjn) by {
                if j < cjn {
                    assert(v@[j as int] == cdigits[j - cstart]);
                    assert(is_digit_char(v@[j as int]));
                }
            }
            assert(v@.subrange(di as int, j as int) =~= cdigits);
        }
    }
    if digits == 0 {
        proof {
            if canon {
                assert(cdigits.len() >= 1);
            }
            assert(!canon);
        }
        return None;
    }
    if digits > 1 && v[di] == '0' {
        proof {
            if canon {
                assert(cdigits.first() == v@[di as int]);
                assert(cmag >= 1) by {
                    if cmag == 0 {
                        assert(cdigits =~= seq![digit_char(0)]);
                    }
                }
                assert(false);
            }
        }
        return None;
    }
    let ghost region = v@.subrange(di as int, j as int);
    proof {
        lemma_digits_unique(region, acc as nat);
    }
    if neg {
        if acc == 0 {
            proof {
                if canon {
                    assert(region == cdigits);
                    assert(cmag == 0);
                }
                assert(!canon);
            }
            return None;
        }
        let val64: i64 = -(acc as i64);
        let val: i32 = val64 as i32;
        proof {
            assert(int_repr(val as int) == seq!['-'] + dec_digits(acc as nat));
            assert(v@.subrange(i as int, j as int) =~= seq!['-'] + region);
        }
        Some((val, j))
    } else {
        if acc > 0x7fff_ffff {
            proof {
                if canon {
                    assert(region == cdigits);
                    assert(cmag == acc);
                }
                assert(!canon);
            }
            return None;
        }
        let val: i32 = acc as i32;
        proof {
            assert(int_repr(val as int) == dec_digits(acc as nat));
        }
        Some((val, j))
    }
}

/// Parses one line against every message shape in turn.  The line is
/// accepted exactly when it is the canonical encoding of a message.
fn lp_message(v: &Vec<char>) -> (r: Option<Message>)
    ensures
        r matches Some(m) ==> v@ == spec_encode(m@),
        r is None ==> forall|m: MessageV| v@ != spec_encode(m),
{
    if let Some(m) = lp_import_complete(v) {
        return Some(m);
    }
    if let Some(m) = lp_import_error(v) {
        return Some(m);
    }
    if let Some(m) = lp_fork_request(v) {
        return Some(m);
    }
    if let Some(m) = lp_fork_response(v) {
        return Some(m);
    }
    if let Some(m) = lp_child_complete(v) {
        return Some(m);
    }
    if let Some(m) = lp_child_error(v) {
        return Some(m);
    }
    if let Some(m) = lp_unknown_error(v) {
        return Some(m);
    }
    if let Some(m) = lp_exit_request(v) {
        return Some(m);
    }
    proof {
        assert forall|m: MessageV| v@ != spec_encode(m) by {
            if v@ == spec_encode(m) {
                match m {
                    MessageV::ImportComplete => {
                        assert(false);
                    }
                    MessageV::ImportError { error, traceback } => {
                        assert(v@ == spec_encode(
                            MessageV::ImportError { error: error, traceback: traceback },
                        ));
                        assert(false);
                    }
                    MessageV::ForkRequest { request_id, request_name, code } => {
                        assert(v@ == spec_encode(
                            MessageV::ForkRequest {
                                request_id: request_id,
                                request_name: request_name,
                                code: code,
                            },
                        ));
                        assert(false);
                    }
                    MessageV::ForkResponse { request_id, request_name, child_pid } => {
                        assert(v@ == spec_encode(
                            MessageV::ForkResponse {
                                request_id: request_id,
                                request_name: request_name,
                                child_pid: child_pid,
                            },
                        ));
                        assert(false);
                    }
                    MessageV::ChildComplete { result } => {
                        assert(v@ == spec_encode(MessageV::ChildComplete { result: result }));
                        assert(false);
                    }
                    MessageV::ChildError { error, traceback } => {
                        assert(v@ == spec_encode(
                            MessageV::ChildError { error: error, traceback: traceback },
                        ));
                        assert(false);
                    }
                    MessageV::UnknownError { error } => {
                        assert(v@ == spec_encode(MessageV::UnknownError { error: error }));
                        assert(false);
                    }
                    MessageV::ExitRequest { request_id } => {
                        assert(v@ == spec_encode(MessageV::ExitRequest { request_id: request_id }));
                        assert(false);
                    }
                }
            }
        }
    }
    None
}

/// Decodes one line.  A line is accepted exactly when it is the canonical
/// encoding of a message: on success the line is the returned message's
/// encoding, and a refused line is the encoding of no message at all — it
/// is handed through as human-readable output.
pub fn decode_message(line: &str) -> (r: Option<Message>)
    ensures
        r matches Some(m) ==> line@ == spec_encode(m@),
        r is None ==> forall|m: MessageV| line@ != spec_encode(m),
{
    let v = str_chars(line);
    lp_message(&v)
}

/// A decimal digit character.
pub open spec fn is_digit_char(c: char) -> bool {
    '0' <= c && c <= '9'
}

/// The numeric value of a digit character.
pub open spec fn digit_val(c: char) -> int {
    c as int - 48
}

/// The value of a digit run read left to right into accumulator `a`.
pub open spec fn val_acc(ds: Seq<char>, a: int) -> int
    decreases ds.len(),
{
    if ds.len() == 0 {
        a
    } else {
        val_acc(ds.drop_first(), a * 10 + digit_val(ds.first()))
    }
}

/// Every character of the run is a digit.
pub open spec fn all_digits(ds: Seq<char>) -> bool {
    forall|k: int| 0 <= k < ds.len() ==> is_digit_char(#[trigger] ds[k])
}

/// The digit character of a value under ten reads back to that value.
proof fn lemma_digit_char_val(d: nat)
    requires
        d < 10,
    ensures
        is_digit_char(digit_char(d)),
        digit_val(digit_char(d)) == d,
{
}

/// `digit_char` and `digit_val` invert each other.
proof fn lemma_digit_char_inverse(c: char)
    requires
        is_digit_char(c),
    ensures
        0 <= digit_val(c) <= 9,
        digit_char(digit_val(c) as nat) == c,
{
}

/// Reading one more digit multiplies the accumulated value by ten.
pub(crate) proof fn lemma_val_acc_push(ds: Seq<char>, a: int, c: char)
    ensures
        val_acc(ds.push(c), a) == val_acc(ds, a) * 10 + digit_val(c),
    decreases ds.len(),
{
    if ds.len() == 0 {
        assert(ds.push(c).drop_first() =~= Seq::<char>::empty());
        assert(ds.push(c).first() == c);
        assert(val_acc(ds, a) == a);
        assert(val_acc(ds.push(c), a) == val_acc(Seq::<char>::empty(), a * 10 + digit_val(c)));
    } else {
        lemma_val_acc_push(ds.drop_first(), a * 10 + digit_val(ds.first()), c);
        assert(ds.push(c).drop_first() =~= ds.drop_first().push(c));
        assert(ds.push(c).first() == ds.first());
    }
}

/// Reading digits never shrinks a non-negative accumulator.
proof fn lemma_val_acc_ge(ds: Seq<char>, a: int)
    requires
        all_digits(ds),
        a >= 0,
    ensures
        val_acc(ds, a) >= a,
    decreases ds.len(),
{
    if ds.len() == 0 {
    } else {
        assert(is_digit_char(ds.first()));
        assert(all_digits(ds.drop_first()));
        lemma_val_acc_ge(ds.drop_first(), a * 10 + digit_val(ds.first()));
    }
}

/// Reading a concatenation reads the two runs in turn.
proof fn lemma_val_acc_concat(a: Seq<char>, b: Seq<char>, x: int)
    ensures
        val_acc(a + b, x) == val_acc(b, val_acc(a, x)),
    decreases a.len(),
{
    if a.len() == 0 {
        assert(a + b =~= b);
    } else {
        assert((a + b).drop_first() =~= a.drop_first() + b);
        assert((a + b).first() == a.first());
        lemma_val_acc_concat(a.drop_first(), b, x * 10 + digit_val(a.first()));
    }
}

/// The decimal digits of `n` are digits, start with the most significant
/// (non-zero unless `n` is zero), and read back to `n`.
pub(crate) proof fn lemma_dec_digits_props(n: nat)
    ensures
        all_digits(dec_digits(n)),
        dec_digits(n).len() >= 1,
        val_acc(dec_digits(n), 0) == n,
        n >= 1 ==> dec_digits(n).first() != '0',
    decreases n,
{
    if n < 10 {
        lemma_digit_char_val(n);
        assert(dec_digits(n) =~= seq![digit_char(n)]);
        assert(dec_digits(n).first() == digit_char(n));
        assert(dec_digits(n).drop_first() =~= Seq::<char>::empty());
        assert(val_acc(dec_digits(n), 0) == val_acc(
            Seq::<char>::empty(),
            0 * 10 + digit_val(digit_char(n)),
        ));
    } else {
        lemma_dec_digits_props(n / 10);
        let pre = dec_digits(n / 10);
        let d = digit_char(n % 10);
        assert(dec_digits(n) == pre.push(d));
        assert(all_digits(pre.push(d)));
        lemma_digit_char_val(n % 10);
        lemma_val_acc_push(pre, 0, d);
        assert(val_acc(dec_digits(n), 0) == (n / 10) * 10 + (n % 10));
        assert(pre.push(d).first() == pre.first());
    }
}

/// Decimal representations are unique: a digit run without a leading zero
/// that reads to `n` is exactly `dec_digits(n)`.
pub(crate) proof fn lemma_digits_unique(ds: Seq<char>, n: nat)
    requires
        all_digits(ds),
        ds.len() >= 1,
        ds.len() > 1 ==> ds.first() != '0',
        val_acc(ds, 0) == n,
    ensures
        ds == dec_digits(n),
    decreases ds.len(),
{
    if ds.len() == 1 {
        assert(ds.drop_first() =~= Seq::<char>::empty());
        assert(is_digit_char(ds.first()));
        assert(val_acc(ds, 0) == val_acc(ds.drop_first(), 0 * 10 + digit_val(ds.first())));
        assert(n == digit_val(ds.first()));
        lemma_digit_char_inverse(ds.first());
        assert(n < 10);
        assert(ds =~= dec_digits(n));
    } else {
        let pre = ds.drop_last();
        let last = ds.last();
        assert(ds =~= pre.push(last));
        assert(all_digits(pre));
        assert(is_digit_char(last));
        lemma_val_acc_push(pre, 0, last);
        let m = val_acc(pre, 0);
        assert(n == m * 10 + digit_val(last));
        assert(pre.first() == ds.first());
        assert(pre.first() != '0');
        lemma_digit_char_inverse(pre.first());
        assert(digit_val(pre.first()) >= 1);
        assert(all_digits(pre.drop_first()));
        lemma_val_acc_ge(pre.drop_first(), digit_val(pre.first()));
        assert(m >= 1);
        lemma_digit_char_inverse(last);
        assert(n >= 10);
        assert(n / 10 == m && n % 10 == digit_val(last));
        lemma_digits_unique(pre, m as nat);
        assert(digit_char((n % 10) as nat) == last);
        assert(ds =~= dec_digits(n));
    }
}

/// Integer representations are determined: two representations that start
/// at the same place and both end at a non-digit are the same number with
/// the same extent.
proof fn lemma_int_repr_deterministic(
    s: Seq<char>,
    i: int,
    w1: int,
    j1: int,
    w2: int,
    j2: int,
)
    requires
        0 <= i <= j1 <= s.len(),
        i <= j2 <= s.len(),
        s.subrange(i, j1) == int_repr(w1),
        s.subrange(i, j2) == int_repr(w2),
        j1 == s.len() || !is_digit_char(s[j1]),
        j2 == s.len() || !is_digit_char(s[j2]),
    ensures
        w1 == w2,
        j1 == j2,
{
    lemma_dec_digits_props((if w1 < 0 { -w1 } else { w1 }) as nat);
    lemma_dec_digits_props((if w2 < 0 { -w2 } else { w2 }) as nat);
    let neg1 = w1 < 0;
    let neg2 = w2 < 0;
    assert(int_repr(w1).len() >= 1 && int_repr(w2).len() >= 1);
    assert(s[i] == int_repr(w1)[0] && s[i] == int_repr(w2)[0]);
    assert(neg1 ==> s[i] == '-');
    assert(neg2 ==> s[i] == '-');
    assert(!neg1 ==> is_digit_char(s[i]));
    assert(!neg2 ==> is_digit_char(s[i]));
    assert(!is_digit_char('-'));
    assert(neg1 == neg2);
    let start = if neg1 { i + 1 } else { i };
    let d1 = dec_digits((if w1 < 0 { -w1 } else { w1 }) as nat);
    let d2 = dec_digits((if w2 < 0 { -w2 } else { w2 }) as nat);
    if neg1 {
        assert(int_repr(w1) == seq!['-'] + d1);
        assert(int_repr(w2) == seq!['-'] + d2);
        assert forall|k: int| 0 <= k < d1.len() implies s.subrange(start, j1)[k] == d1[k] by {
            assert(s.subrange(i, j1)[1 + k] == (seq!['-'] + d1)[1 + k]);
        }
        assert forall|k: int| 0 <= k < d2.len() implies s.subrange(start, j2)[k] == d2[k] by {
            assert(s.subrange(i, j2)[1 + k] == (seq!['-'] + d2)[1 + k]);
        }
        assert(s.subrange(start, j1) =~= d1);
        assert(s.subrange(start, j2) =~= d2);
    } else {
        assert(s.subrange(start, j1) =~= d1);
        assert(s.subrange(start, j2) =~= d2);
    }
    assert forall|k: int| start <= k < j1 implies is_digit_char(#[trigger] s[k]) by {
        assert(s[k] == s.subrange(start, j1)[k - start]);
        assert(d1[k - start] == s[k]);
    }
    assert forall|k: int| start <= k < j2 implies is_digit_char(#[trigger] s[k]) by {
        assert(s[k] == s.subrange(start, j2)[k - start]);
        assert(d2[k - start] == s[k]);
    }
    if j1 < j2 {
        assert(is_digit_char(s[j1]));
        assert(false);
    }
    if j2 < j1 {
        assert(is_digit_char(s[j2]));
        assert(false);
    }
    assert(d1 =~= d2);
    assert(val_acc(d1, 0) == val_acc(d2, 0));
}

/// Escaped bodies are determined: if two escaped strings followed by their
/// closing quotes read the same, they are the same string with the same
/// tail.
proof fn lemma_escape_prefix(w1: Seq<char>, t: Seq<char>, w2: Seq<char>, u: Seq<char>)
    requires
        escape(w1) + seq!['"'] + t == escape(w2) + seq!['"'] + u,
    ensures
        w1 == w2,
        t == u,
    decreases w1.len(),
{
    let lhs = escape(w1) + seq!['"'] + t;
    let rhs = escape(w2) + seq!['"'] + u;
    if w1.len() == 0 {
        assert(escape(w1) =~= Seq::<char>::empty());
        assert(lhs[0] == '"');
        if w2.len() == 0 {
            assert(escape(w2) =~= Seq::<char>::empty());
            assert(t =~= u) by {
                assert(lhs.len() == 1 + t.len());
                assert(rhs.len() == 1 + u.len());
                assert forall|k: int| 0 <= k < t.len() implies t[k] == u[k] by {
                    assert(lhs[1 + k] == t[k]);
                    assert(rhs[1 + k] == u[k]);
                }
            }
            assert(w1 =~= w2);
        } else {
            let c2 = w2.first();
            assert(escape(w2) == escape_char(c2) + escape(w2.drop_first()));
            assert(rhs[0] == escape_char(c2)[0]);
            assert(escape_char(c2)[0] != '"');
            assert(false);
        }
    } else if w2.len() == 0 {
        assert(rhs[0] == '"');
        let c1 = w1.first();
        assert(escape(w1) == escape_char(c1) + escape(w1.drop_first()));
        assert(lhs[0] == escape_char(c1)[0]);
        assert(escape_char(c1)[0] != '"');
        assert(false);
    } else {
        let c1 = w1.first();
        let c2 = w2.first();
        assert(escape(w1) == escape_char(c1) + escape(w1.drop_first()));
        assert(escape(w2) == escape_char(c2) + escape(w2.drop_first()));
        let lrest = escape(w1.drop_first()) + seq!['"'] + t;
        let rrest = escape(w2.drop_first()) + seq!['"'] + u;
        assert(lhs =~= escape_char(c1) + lrest);
        assert(rhs =~= escape_char(c2) + rrest);
        let e1 = escape_char(c1);
        let e2 = escape_char(c2);
        assert(lhs[0] == e1[0] && rhs[0] == e2[0]);
        if e1.len() == 1 && e2.len() == 1 {
            assert(c1 == c2);
            assert(lrest =~= rrest) by {
                assert(lhs.len() == rhs.len());
                assert(forall|k: int|
                    0 <= k < lrest.len() ==> lrest[k] == lhs[1 + k] && rrest[k] == rhs[1 + k]);
            }
            lemma_escape_prefix(w1.drop_first(), t, w2.drop_first(), u);
            assert(w1.len() == w2.len());
            assert forall|k: int| 0 <= k < w1.len() implies w1[k] == w2[k] by {
                if k > 0 {
                    assert(w1[k] == w1.drop_first()[k - 1]);
                    assert(w2[k] == w2.drop_first()[k - 1]);
                }
            }
            assert(w1 =~= w2);
        } else if e1.len() == 2 && e2.len() == 2 {
            assert(e1[0] == '\\' && e2[0] == '\\');
            assert(lhs[1] == e1[1] && rhs[1] == e2[1]);
            assert(e1[1] == e2[1]);
            assert(c1 == c2);
            assert(lrest =~= rrest) by {
                assert(lhs.len() == rhs.len());
                assert(forall|k: int|
                    0 <= k < lrest.len() ==> lrest[k] == lhs[2 + k] && rrest[k] == rhs[2 + k]);
            }
            lemma_escape_prefix(w1.drop_first(), t, w2.drop_first(), u);
            assert(w1.len() == w2.len());
            assert forall|k: int| 0 <= k < w1.len() implies w1[k] == w2[k] by {
                if k > 0 {
                    assert(w1[k] == w1.drop_first()[k - 1]);
                    assert(w2[k] == w2.drop_first()[k - 1]);
                }
            }
            assert(w1 =~= w2);
        } else if e1.len() == 1 {
            assert(e2[0] == '\\');
            assert(e1[0] == c1 && c1 != '\\');
            assert(false);
        } else {
            assert(e1[0] == '\\');
            assert(e2[0] == c2 && c2 != '\\');
            assert(false);
        }
    }
}

/// Quoted strings are determined: two quoted regions at the same place have
/// the same body and the same extent.
proof fn lemma_quoted_deterministic(
    s: Seq<char>,
    i: int,
    w1: Seq<char>,
    j1: int,
    w2: Seq<char>,
    j2: int,
)
    requires
        0 <= i <= j1 <= s.len(),
        i <= j2 <= s.len(),
        s.subrange(i, j1) == quoted(w1),
        s.subrange(i, j2) == quoted(w2),
    ensures
        w1 == w2,
        j1 == j2,
{
    let tail = s.len() as int;
    let rest1 = s.subrange(j1, tail);
    let rest2 = s.subrange(j2, tail);
    assert(quoted(w1).len() == 2 + escape(w1).len());
    assert(quoted(w2).len() == 2 + escape(w2).len());
    assert(j1 - i == quoted(w1).len());
    assert(j2 - i == quoted(w2).len());
    assert forall|k: int|
        0 <= k < (escape(w1) + seq!['"'] + rest1).len() implies (escape(w1) + seq!['"']
        + rest1)[k] == s.subrange(i + 1, tail)[k] by {
        if k < escape(w1).len() {
            assert(quoted(w1)[1 + k] == escape(w1)[k]);
            assert(s.subrange(i, j1)[1 + k] == s[i + 1 + k]);
        } else if k == escape(w1).len() {
            assert(quoted(w1)[1 + k] == '"');
            assert(s.subrange(i, j1)[1 + k] == s[i + 1 + k]);
        } else {
            assert((escape(w1) + seq!['"'] + rest1)[k] == rest1[k - escape(w1).len() - 1]);
            assert(rest1[k - escape(w1).len() - 1] == s[j1 + k - escape(w1).len() - 1]);
        }
    }
    assert(escape(w1) + seq!['"'] + rest1 =~= s.subrange(i + 1, tail));
    assert forall|k: int|
        0 <= k < (escape(w2) + seq!['"'] + rest2).len() implies (escape(w2) + seq!['"']
        + rest2)[k] == s.subrange(i + 1, tail)[k] by {
        if k < escape(w2).len() {
            assert(quoted(w2)[1 + k] == escape(w2)[k]);
            assert(s.subrange(i, j2)[1 + k] == s[i + 1 + k]);
        } else if k == escape(w2).len() {
            assert(quoted(w2)[1 + k] == '"');
            assert(s.subrange(i, j2)[1 + k] == s[i + 1 + k]);
        } else {
            assert((escape(w2) + seq!['"'] + rest2)[k] == rest2[k - escape(w2).len() - 1]);
            assert(rest2[k - escape(w2).len() - 1] == s[j2 + k - escape(w2).len() - 1]);
        }
    }
    assert(escape(w2) + seq!['"'] + rest2 =~= s.subrange(i + 1, tail));
    lemma_escape_prefix(w1, rest1, w2, rest2);
}

/// Splits a quoted region into its parts: the opening quote, the escaped
/// body followed by the closing quote.
proof fn lemma_quoted_decompose(s: Seq<char>, i: int, w: Seq<char>, j: int)
    requires
        0 <= i,
        i <= j <= s.len(),
        s.subrange(i, j) == quoted(w),
    ensures
        j == i + 2 + escape(w).len(),
        s[i] == '"',
        s.subrange(i + 1, j) == escape(w) + seq!['"'],
{
    assert(quoted(w).len() == 2 + escape(w).len());
    assert(s[i] == s.subrange(i, j)[0]);
    assert forall|k: int|
        0 <= k < (escape(w) + seq!['"']).len() implies (escape(w) + seq!['"'])[k] == s.subrange(
        i + 1,
        j,
    )[k] by {
        assert(quoted(w)[1 + k] == (escape(w) + seq!['"'])[k]);
        assert(s.subrange(i, j)[1 + k] == s[i + 1 + k]);
    }
    assert(s.subrange(i + 1, j) =~= escape(w) + seq!['"']);
}

/// Splits an integer region into its parts: the sign, then the digit run
/// that reads back to the magnitude, with no leading zero.
proof fn lemma_int_repr_decompose(s: Seq<char>, i: int, val: int, j: int)
    requires
        0 <= i,
        i <= j <= s.len(),
        s.subrange(i, j) == int_repr(val),
    ensures
        val < 0 ==> s[i] == '-',
        val >= 0 ==> is_digit_char(s[i]),
        j == (if val < 0 { i + 1 } else { i }) + dec_digits((if val < 0 { -val } else { val }) as nat).len(),
        s.subrange((if val < 0 { i + 1 } else { i }), j) == dec_digits(
            (if val < 0 { -val } else { val }) as nat,
        ),
        forall|k: int| (if val < 0 { i + 1 } else { i }) <= k < j ==> is_digit_char(#[trigger] s[k]),
{
    let mag = (if val < 0 { -val } else { val }) as nat;
    lemma_dec_digits_props(mag);
    let d = dec_digits(mag);
    let start = if val < 0 { i + 1 } else { i };
    if val < 0 {
        assert(int_repr(val) == seq!['-'] + d);
        assert(s[i] == int_repr(val)[0]);
        assert forall|k: int| 0 <= k < d.len() implies s.subrange(start, j)[k] == d[k] by {
            assert(s.subrange(i, j)[1 + k] == (seq!['-'] + d)[1 + k]);
        }
        assert(s.subrange(start, j) =~= d);
    } else {
        assert(s.subrange(start, j) =~= d);
        assert(s[i] == d[0]);
    }
    assert forall|k: int| start <= k < j implies is_digit_char(#[trigger] s[k]) by {
        assert(s[k] == s.subrange(start, j)[k - start]);
        assert(d[k - start] == s[k]);
    }
}

/// The head of an escaped body with its closing quote: either the closing
/// quote itself, or the escape of the body's first character followed by
/// the rest of the body.
proof fn lemma_escape_head(s: Seq<char>, j: int, jq: int, w2: Seq<char>)
    requires
        0 <= j,
        j <= jq <= s.len(),
        s.subrange(j, jq) == escape(w2) + seq!['"'],
    ensures
        jq == j + escape(w2).len() + 1,
        w2.len() == 0 ==> s[j] == '"',
        w2.len() > 0 ==> s[j] == escape_char(w2.first())[0],
        w2.len() > 0 && escape_char(w2.first()).len() == 2 ==> j + 1 < jq && s[j + 1]
            == escape_char(w2.first())[1],
        w2.len() > 0 ==> s.subrange(j + escape_char(w2.first()).len() as int, jq) == escape(
            w2.drop_first(),
        ) + seq!['"'],
{
    assert((escape(w2) + seq!['"']).len() == escape(w2).len() + 1);
    if w2.len() == 0 {
        assert(s[j] == s.subrange(j, jq)[0]);
    } else {
        let f = w2.first();
        let e = escape_char(f);
        assert(escape(w2) == e + escape(w2.drop_first()));
        assert(s[j] == s.subrange(j, jq)[0]);
        assert((escape(w2) + seq!['"'])[0] == e[0]);
        if e.len() == 2 {
            assert(s[j + 1] == s.subrange(j, jq)[1]);
            assert((escape(w2) + seq!['"'])[1] == e[1]);
        }
        let el = e.len() as int;
        assert forall|k: int|
            0 <= k < (escape(w2.drop_first()) + seq!['"']).len() implies (escape(w2.drop_first())
            + seq!['"'])[k] == s.subrange(j + el, jq)[k] by {
            assert(s.subrange(j, jq)[el + k] == s[j + el + k]);
            assert((escape(w2) + seq!['"'])[el + k] == (escape(w2.drop_first()) + seq!['"'])[k]);
        }
        assert(s.subrange(j + el, jq) =~= escape(w2.drop_first()) + seq!['"']);
    }
}

/// A prefix of a digit run reads to at most the whole run's value.
pub(crate) proof fn lemma_val_acc_prefix_le(full: Seq<char>, k: int)
    requires
        all_digits(full),
        0 <= k <= full.len(),
    ensures
        0 <= val_acc(full.take(k), 0) <= val_acc(full, 0),
{
    assert(full =~= full.take(k) + full.skip(k));
    lemma_val_acc_concat(full.take(k), full.skip(k), 0);
    assert(all_digits(full.take(k)));
    assert(all_digits(full.skip(k)));
    lemma_val_acc_ge(full.take(k), 0);
    lemma_val_acc_ge(full.skip(k), val_acc(full.take(k), 0));
}

/// `null` or a quoted string at one place is determined: same field, same
/// extent.
proof fn lemma_opt_repr_deterministic(
    s: Seq<char>,
    i: int,
    o1: Option<Seq<char>>,
    j1: int,
    o2: Option<Seq<char>>,
    j2: int,
)
    requires
        0 <= i <= j1 <= s.len(),
        i <= j2 <= s.len(),
        s.subrange(i, j1) == opt_repr(o1),
        s.subrange(i, j2) == opt_repr(o2),
    ensures
        o1 == o2,
        j1 == j2,
{
    reveal_strlit("null");
    match (o1, o2) {
        (None, None) => {
            assert(j1 - i == "null"@.len());
            assert(j2 - i == "null"@.len());
        }
        (None, Some(w2)) => {
            assert("null"@.len() == 4);
            assert(j1 - i == 4);
            assert(s.subrange(i, j1)[0] == s[i]);
            assert(s.subrange(i, j1)[0] == "null"@[0]);
            assert(s[i] == 'n');
            assert(j2 - i == quoted(w2).len());
            assert(s.subrange(i, j2)[0] == s[i]);
            assert(quoted(w2)[0] == '"');
            assert(false);
        }
        (Some(w1), None) => {
            assert("null"@.len() == 4);
            assert(j2 - i == 4);
            assert(s.subrange(i, j2)[0] == s[i]);
            assert(s.subrange(i, j2)[0] == "null"@[0]);
            assert(s[i] == 'n');
            assert(j1 - i == quoted(w1).len());
            assert(s.subrange(i, j1)[0] == s[i]);
            assert(quoted(w1)[0] == '"');
            assert(false);
        }
        (Some(w1), Some(w2)) => {
            lemma_quoted_deterministic(s, i, w1, j1, w2, j2);
        }
    }
}

/// Recomposes three adjacent regions.
pub(crate) proof fn lemma_cat3(s: Seq<char>, a: Seq<char>, b: Seq<char>, c: Seq<char>)
    requires
        s.len() == a.len() + b.len() + c.len(),
        s.subrange(0, a.len() as int) == a,
        s.subrange(a.len() as int, (a.len() + b.len()) as int) == b,
        s.subrange((a.len() + b.len()) as int, s.len() as int) == c,
    ensures
        s == a + b + c,
{
    let al = a.len() as int;
    let bl = b.len() as int;
    assert forall|k: int| 0 <= k < s.len() implies s[k] == (a + b + c)[k] by {
        if k < al {
            assert(s.subrange(0, al)[k] == s[k]);
        } else if k < al + bl {
            assert(s.subrange(al, al + bl)[k - al] == s[k]);
        } else {
            assert(s.subrange(al + bl, s.len() as int)[k - al - bl] == s[k]);
        }
    }
    assert(s =~= a + b + c);
}

/// Splits a five-part concatenation back into its regions.
proof fn lemma_split5(s: Seq<char>, a: Seq<char>, b: Seq<char>, c: Seq<char>, d: Seq<char>, e: Seq<char>)
    requires
        s == a + b + c + d + e,
    ensures
        s.len() == a.len() + b.len() + c.len() + d.len() + e.len(),
        s.subrange(0, a.len() as int) == a,
        s.subrange(a.len() as int, (a.len() + b.len()) as int) == b,
        s.subrange((a.len() + b.len()) as int, (a.len() + b.len() + c.len()) as int) == c,
        s.subrange(
            (a.len() + b.len() + c.len()) as int,
            (a.len() + b.len() + c.len() + d.len()) as int,
        ) == d,
        s.subrange((a.len() + b.len() + c.len() + d.len()) as int, s.len() as int) == e,
{
    assert(s.subrange(0, a.len() as int) =~= a);
    assert(s.subrange(a.len() as int, (a.len() + b.len()) as int) =~= b);
    assert(s.subrange((a.len() + b.len()) as int, (a.len() + b.len() + c.len()) as int) =~= c);
    assert(s.subrange(
        (a.len() + b.len() + c.len()) as int,
        (a.len() + b.len() + c.len() + d.len()) as int,
    ) =~= d);
    assert(s.subrange((a.len() + b.len() + c.len() + d.len()) as int, s.len() as int) =~= e);
}

/// Recomposes five adjacent regions.
proof fn lemma_cat5(s: Seq<char>, a: Seq<char>, b: Seq<char>, c: Seq<char>, d: Seq<char>, e: Seq<char>)
    requires
        s.len() == a.len() + b.len() + c.len() + d.len() + e.len(),
        s.subrange(0, a.len() as int) == a,
        s.subrange(a.len() as int, (a.len() + b.len()) as int) == b,
        s.subrange((a.len() + b.len()) as int, (a.len() + b.len() + c.len()) as int) == c,
        s.subrange(
            (a.len() + b.len() + c.len()) as int,
            (a.len() + b.len() + c.len() + d.len()) as int,
        ) == d,
        s.subrange((a.len() + b.len() + c.len() + d.len()) as int, s.len() as int) == e,
    ensures
        s == a + b + c + d + e,
{
    let p1 = a.len() as int;
    let p2 = p1 + b.len();
    let p3 = p2 + c.len();
    let p4 = p3 + d.len();
    assert forall|k: int| 0 <= k < s.len() implies s[k] == (a + b + c + d + e)[k] by {
        if k < p1 {
            assert(s.subrange(0, p1)[k] == s[k]);
        } else if k < p2 {
            assert(s.subrange(p1, p2)[k - p1] == s[k]);
        } else if k < p3 {
            assert(s.subrange(p2, p3)[k - p2] == s[k]);
        } else if k < p4 {
            assert(s.subrange(p3, p4)[k - p3] == s[k]);
        } else {
            assert(s.subrange(p4, s.len() as int)[k - p4] == s[k]);
        }
    }
    assert(s =~= a + b + c + d + e);
}

/// Splits a seven-part concatenation back into its regions.
proof fn lemma_split7(
    s: Seq<char>,
    a: Seq<char>,
    b: Seq<char>,
    c: Seq<char>,
    d: Seq<char>,
    e: Seq<char>,
    f: Seq<char>,
    g: Seq<char>,
)
    requires
        s == a + b + c + d + e + f + g,
    ensures
        s.len() == a.len() + b.len() + c.len() + d.len() + e.len() + f.len() + g.len(),
        s.subrange(0, a.len() as int) == a,
        s.subrange(a.len() as int, (a.len() + b.len()) as int) == b,
        s.subrange((a.len() + b.len()) as int, (a.len() + b.len() + c.len()) as int) == c,
        s.subrange(
            (a.len() + b.len() + c.len()) as int,
            (a.len() + b.len() + c.len() + d.len()) as int,
        ) == d,
        s.subrange(
            (a.len() + b.len() + c.len() + d.len()) as int,
            (a.len() + b.len() + c.len() + d.len() + e.len()) as int,
        ) == e,
        s.subrange(
            (a.len() + b.len() + c.len() + d.len() + e.len()) as int,
            (a.len() + b.len() + c.len() + d.len() + e.len() + f.len()) as int,
        ) == f,
        s.subrange(
            (a.len() + b.len() + c.len() + d.len() + e.len() + f.len()) as int,
            s.len() as int,
        ) == g,
{
    let p1 = a.len() as int;
    let p2 = p1 + b.len();
    let p3 = p2 + c.len();
    let p4 = p3 + d.len();
    let p5 = p4 + e.len();
    let p6 = p5 + f.len();
    assert(s.subrange(0, p1) =~= a);
    assert(s.subrange(p1, p2) =~= b);
    assert(s.subrange(p2, p3) =~= c);
    assert(s.subrange(p3, p4) =~= d);
    assert(s.subrange(p4, p5) =~= e);
    assert(s.subrange(p5, p6) =~= f);
    assert(s.subrange(p6, s.len() as int) =~= g);
}

/// Recomposes seven adjacent regions.
proof fn lemma_cat7(
    s: Seq<char>,
    a: Seq<char>,
    b: Seq<char>,
    c: Seq<char>,
    d: Seq<char>,
    e: Seq<char>,
    f: Seq<char>,
    g: Seq<char>,
)
    requires
        s.len() == a.len() + b.len() + c.len() + d.len() + e.len() + f.len() + g.len(),
        s.subrange(0, a.len() as int) == a,
        s.subrange(a.len() as int, (a.len() + b.len()) as int) == b,
        s.subrange((a.len() + b.len()) as int, (a.len() + b.len() + c.len()) as int) == c,
        s.subrange(
            (a.len() + b.len() + c.len()) as int,
            (a.len() + b.len() + c.len() + d.len()) as int,
        ) == d,
        s.subrange(
            (a.len() + b.len() + c.len() + d.len()) as int,
            (a.len() + b.len() + c.len() + d.len() + e.len()) as int,
        ) == e,
        s.subrange(
            (a.len() + b.len() + c.len() + d.len() + e.len()) as int,
            (a.len() + b.len() + c.len() + d.len() + e.len() + f.len()) as int,
        ) == f,
        s.subrange(
            (a.len() + b.len() + c.len() + d.len() + e.len() + f.len()) as int,
            s.len() as int,
        ) == g,
    ensures
        s == a + b + c + d + e + f + g,
{
    let p1 = a.len() as int;
    let p2 = p1 + b.len();
    let p3 = p2 + c.len();
    let p4 = p3 + d.len();
    let p5 = p4 + e.len();
    let p6 = p5 + f.len();
    assert forall|k: int| 0 <= k < s.len() implies s[k] == (a + b + c + d + e + f + g)[k] by {
        if k < p1 {
            assert(s.subrange(0, p1)[k] == s[k]);
        } else if k < p2 {
            assert(s.subrange(p1, p2)[k - p1] == s[k]);
        } else if k < p3 {
            assert(s.subrange(p2, p3)[k - p2] == s[k]);
        } else if k < p4 {
            assert(s.subrange(p3, p4)[k - p3] == s[k]);
        } else if k < p5 {
            assert(s.subrange(p4, p5)[k - p4] == s[k]);
        } else if k < p6 {
            assert(s.subrange(p5, p6)[k - p5] == s[k]);
        } else {
            assert(s.subrange(p6, s.len() as int)[k - p6] == s[k]);
        }
    }
    assert(s =~= a + b + c + d + e + f + g);
}

/// Splits a three-part concatenation back into its regions.
pub(crate) proof fn lemma_split3(s: Seq<char>, a: Seq<char>, b: Seq<char>, c: Seq<char>)
    requires
        s == a + b + c,
    ensures
        s.len() == a.len() + b.len() + c.len(),
        s.subrange(0, a.len() as int) == a,
        s.subrange(a.len() as int, (a.len() + b.len()) as int) == b,
        s.subrange((a.len() + b.len()) as int, s.len() as int) == c,
{
    assert(s.subrange(0, a.len() as int) =~= a);
    assert(s.subrange(a.len() as int, (a.len() + b.len()) as int) =~= b);
    assert(s.subrange((a.len() + b.len()) as int, s.len() as int) =~= c);
}

/// Parses the `import_error` line shape; exactly its canonical encodings
/// are accepted.
fn lp_import_error(v: &Vec<char>) -> (r: Option<Message>)
    ensures
        r matches Some(m) ==> v@ == spec_encode(m@),
        (exists|er: Seq<char>, tb: Option<Seq<char>>|
            v@ == spec_encode(MessageV::ImportError { error: er, traceback: tb })) ==> r is Some,
{
    let ghost canon = exists|er: Seq<char>, tb: Option<Seq<char>>|
        v@ == spec_encode(MessageV::ImportError { error: er, traceback: tb });
    let ghost (cer, ctb): (Seq<char>, Option<Seq<char>>) = if canon {
        choose|er: Seq<char>, tb: Option<Seq<char>>|
            v@ == spec_encode(MessageV::ImportError { error: er, traceback: tb })
    } else {
        (Seq::empty(), None)
    };
    let ghost l1 = "{\"name\":\"import_error\",\"error\":"@;
    let ghost l2 = ",\"traceback\":"@;
    let ghost l3 = "}"@;
    let ghost a1 = l1.len() as int;
    let ghost a2 = a1 + quoted(cer).len();
    let ghost a3 = a2 + l2.len();
    let ghost a4 = a3 + opt_repr(ctb).len();
    proof {
        if canon {
            lemma_split5(v@, l1, quoted(cer), l2, opt_repr(ctb), l3);
        }
    }
    let j1 = match lp_expect(v, 0, "{\"name\":\"import_error\",\"error\":") {
        Some(j) => j,
        None => {
            proof {
                assert(!canon);
            }
            return None;
        }
    };
    let (er_s, j2) = match lp_string(v, j1) {
        Some(p) => p,
        None => {
            proof {
                if canon {
                    assert(v@.subrange(a1, a2) == quoted(cer));
                    assert(false);
                }
            }
            return None;
        }
    };
    proof {
        if canon {
            lemma_quoted_deterministic(v@, j1 as int, er_s@, j2 as int, cer, a2);
        }
    }
    let j3 = match lp_expect(v, j2, ",\"traceback\":") {
        Some(j) => j,
        None => {
            proof {
                if canon {
                    assert(v@.subrange(a2, a3) == l2);
                    assert(false);
                }
            }
            return None;
        }
    };
    let (tb_s, j4) = match lp_opt_string(v, j3) {
        Some(p) => p,
        None => {
            proof {
                if canon {
                    assert(v@.subrange(a3, a4) == opt_repr(ctb));
                    assert(false);
                }
            }
            return None;
        }
    };
    proof {
        if canon {
            lemma_opt_repr_deterministic(v@, j3 as int, opt_view(tb_s), j4 as int, ctb, a4);
        }
    }
    let j5 = match lp_expect(v, j4, "}") {
        Some(j) => j,
        None => {
            proof {
                if canon {
                    assert(v@.subrange(a4, v@.len() as int) == l3);
                    assert(false);
                }
            }
            return None;
        }
    };
    if j5 == v.len() {
        let ghost erv = er_s@;
        let ghost tbv = opt_view(tb_s);
        let m = Message::ImportError { error: er_s, traceback: tb_s };
        proof {
            lemma_cat5(v@, l1, quoted(erv), l2, opt_repr(tbv), l3);
            assert(v@ == spec_encode(m@));
        }
        Some(m)
    } else {
        proof {
            if canon {
                assert(j5 as int == a4 + l3.len());
                assert(false);
            }
        }
        None
    }
}

/// Parses the `import_complete` line; exactly its canonical encoding is
/// accepted.
fn lp_import_complete(v: &Vec<char>) -> (r: Option<Message>)
    ensures
        r matches Some(m) ==> v@ == spec_encode(m@),
        v@ == spec_encode(MessageV::ImportComplete) ==> r is Some,
{
    let ghost canon = v@ == spec_encode(MessageV::ImportComplete);
    let j = match lp_expect(v, 0, "{\"name\":\"import_complete\"}") {
        Some(j) => j,
        None => {
            proof {
                if canon {
                    assert(v@.subrange(0, v@.len() as int) =~= v@);
                    assert(false);
                }
            }
            return None;
        }
    };
    if j == v.len() {
        proof {
            assert(v@.subrange(0, j as int) =~= v@);
        }
        Some(Message::ImportComplete)
    } else {
        proof {
            if canon {
                assert(v@.subrange(0, v@.len() as int) =~= v@);
                assert(false);
            }
        }
        None
    }
}

/// Parses the `child_complete` line shape; exactly its canonical encodings
/// are accepted.
fn lp_child_complete(v: &Vec<char>) -> (r: Option<Message>)
    ensures
        r matches Some(m) ==> v@ == spec_encode(m@),
        (exists|res: Option<Seq<char>>|
            v@ == spec_encode(MessageV::ChildComplete { result: res })) ==> r is Some,
{
    let ghost canon = exists|res: Option<Seq<char>>|
        v@ == spec_encode(MessageV::ChildComplete { result: res });
    let ghost cres: Option<Seq<char>> = if canon {
        choose|res: Option<Seq<char>>| v@ == spec_encode(MessageV::ChildComplete { result: res })
    } else {
        None
    };
    let ghost l1 = "{\"name\":\"child_complete\",\"result\":"@;
    let ghost l3 = "}"@;
    let ghost a1 = l1.len() as int;
    let ghost a2 = a1 + opt_repr(cres).len();
    proof {
        if canon {
            lemma_split3(v@, l1, opt_repr(cres), l3);
        }
    }
    let j1 = match lp_expect(v, 0, "{\"name\":\"child_complete\",\"result\":") {
        Some(j) => j,
        None => {
            proof {
                assert(!canon);
            }
            return None;
        }
    };
    let (res_s, j2) = match lp_opt_string(v, j1) {
        Some(p) => p,
        None => {
            proof {
                if canon {
                    assert(v@.subrange(a1, a2) == opt_repr(cres));
                    assert(false);
                }
            }
            return None;
        }
    };
    proof {
        if canon {
            lemma_opt_repr_deterministic(v@, j1 as int, opt_view(res_s), j2 as int, cres, a2);
        }
    }
    let j3 = match lp_expect(v, j2, "}") {
        Some(j) => j,
        None => {
            proof {
                if canon {
                    assert(v@.subrange(a2, v@.len() as int) == l3);
                    assert(false);
                }
            }
            return None;
        }
    };
    if j3 == v.len() {
        let ghost resv = opt_view(res_s);
        let m = Message::ChildComplete { result: res_s };
        proof {
            lemma_cat3(v@, l1, opt_repr(resv), l3);
            assert(v@ == spec_encode(m@));
        }
        Some(m)
    } else {
        proof {
            if canon {
                assert(j3 as int == a2 + l3.len());
                assert(false);
            }
        }
        None
    }
}

/// Parses the `child_error` line shape; exactly its canonical encodings
/// are accepted.
fn lp_child_error(v: &Vec<char>) -> (r: Option<Message>)
    ensures
        r matches Some(m) ==> v@ == spec_encode(m@),
        (exists|er: Seq<char>, tb: Option<Seq<char>>|
            v@ == spec_encode(MessageV::ChildError { error: er, traceback: tb })) ==> r is Some,
{
    let ghost canon = exists|er: Seq<char>, tb: Option<Seq<char>>|
        v@ == spec_encode(MessageV::ChildError { error: er, traceback: tb });
    let ghost (cer, ctb): (Seq<char>, Option<Seq<char>>) = if canon {
        choose|er: Seq<char>, tb: Option<Seq<char>>|
            v@ == spec_encode(MessageV::ChildError { error: er, traceback: tb })
    } else {
        (Seq::empty(), None)
    };
    let ghost l1 = "{\"name\":\"child_error\",\"error\":"@;
    let ghost l2 = ",\"traceback\":"@;
    let ghost l3 = "}"@;
    let ghost a1 = l1.len() as int;
    let ghost a2 = a1 + quoted(cer).len();
    let ghost a3 = a2 + l2.len();
    let ghost a4 = a3 + opt_repr(ctb).len();
    proof {
        if canon {
            lemma_split5(v@, l1, quoted(cer), l2, opt_repr(ctb), l3);
        }
    }
    let j1 = match lp_expect(v, 0, "{\"name\":\"child_error\",\"error\":") {
        Some(j) => j,
        None => {
            proof {
                assert(!canon);
            }
            return None;
        }
    };
    let (er_s, j2) = match lp_string(v, j1) {
        Some(p) => p,
        None => {
            proof {
                if canon {
                    assert(v@.subrange(a1, a2) == quoted(cer));
                    assert(false);
                }
            }
            return None;
        }
    };
    proof {
        if canon {
            lemma_quoted_deterministic(v@, j1 as int, er_s@, j2 as int, cer, a2);
        }
    }
    let j3 = match lp_expect(v, j2, ",\"traceback\":") {
        Some(j) => j,
        None => {
            proof {
                if canon {
                    assert(v@.subrange(a2, a3) == l2);
                    assert(false);
                }
            }
            return None;
        }
    };
    let (tb_s, j4) = match lp_opt_string(v, j3) {
        Some(p) => p,
        None => {
            proof {
                if canon {
                    assert(v@.subrange(a3, a4) == opt_repr(ctb));
                    assert(false);
                }
            }
            return None;
        }
    };
    proof {
        if canon {
            lemma_opt_repr_deterministic(v@, j3 as int, opt_view(tb_s), j4 as int, ctb, a4);
        }
    }
    let j5 = match lp_expect(v, j4, "}") {
        Some(j) => j,
        None => {
            proof {
                if canon {
                    assert(v@.subrange(a4, v@.len() as int) == l3);
                    assert(false);
                }
            }
            return None;
        }
    };
    if j5 == v.len() {
        let ghost erv = er_s@;
        let ghost tbv = opt_view(tb_s);
        let m = Message::ChildError { error: er_s, traceback: tb_s };
        proof {
            lemma_cat5(v@, l1, quoted(erv), l2, opt_repr(tbv), l3);
            assert(v@ == spec_encode(m@));
        }
        Some(m)
    } else {
        proof {
            if canon {
                assert(j5 as int == a4 + l3.len());
                assert(false);
            }
        }
        None
    }
}

/// Parses the `unknown_error` line shape; exactly its canonical encodings
/// are accepted.
fn lp_unknown_error(v: &Vec<char>) -> (r: Option<Message>)
    ensures
        r matches Some(m) ==> v@ == spec_encode(m@),
        (exists|x: Seq<char>| v@ == spec_encode(MessageV::UnknownError { error: x })) ==> r is Some,
{
    let ghost canon = exists|x: Seq<char>| v@ == spec_encode(MessageV::UnknownError { error: x });
    let ghost cx: Seq<char> = if canon {
        choose|x: Seq<char>| v@ == spec_encode(MessageV::UnknownError { error: x })
    } else {
        Seq::empty()
    };
    let ghost l1 = "{\"name\":\"unknown_error\",\"error\":"@;
    let ghost l3 = "}"@;
    let ghost a1 = l1.len() as int;
    let ghost a2 = a1 + quoted(cx).len();
    proof {
        if canon {
            lemma_split3(v@, l1, quoted(cx), l3);
        }
    }
    let j1 = match lp_expect(v, 0, "{\"name\":\"unknown_error\",\"error\":") {
        Some(j) => j,
        None => {
            proof {
                assert(!canon);
            }
            return None;
        }
    };
    let (x_s, j2) = match lp_string(v, j1) {
        Some(p) => p,
        None => {
            proof {
                if canon {
                    assert(v@.subrange(a1, a2) == quoted(cx));
                    assert(false);
                }
            }
            return None;
        }
    };
    proof {
        if canon {
            lemma_quoted_deterministic(v@, j1 as int, x_s@, j2 as int, cx, a2);
        }
    }
    let j3 = match lp_expect(v, j2, "}") {
        Some(j) => j,
        None => {
            proof {
                if canon {
                    assert(v@.subrange(a2, v@.len() as int) == l3);
                    assert(false);
                }
            }
            return None;
        }
    };
    if j3 == v.len() {
        let ghost xv = x_s@;
        let m = Message::UnknownError { error: x_s };
        proof {
            lemma_cat3(v@, l1, quoted(xv), l3);
            assert(v@ == spec_encode(m@));
        }
        Some(m)
    } else {
        proof {
            if canon {
                assert(j3 as int == a2 + l3.len());
                assert(false);
            }
        }
        None
    }
}

/// Parses the `exit_request` line shape; exactly its canonical encodings
/// are accepted.
fn lp_exit_request(v: &Vec<char>) -> (r: Option<Message>)
    ensures
        r matches Some(m) ==> v@ == spec_encode(m@),
        (exists|x: Seq<char>| v@ == spec_encode(MessageV::ExitRequest { request_id: x })) ==> r is Some,
{
    let ghost canon = exists|x: Seq<char>| v@ == spec_encode(MessageV::ExitRequest { request_id: x });
    let ghost cx: Seq<char> = if canon {
        choose|x: Seq<char>| v@ == spec_encode(MessageV::ExitRequest { request_id: x })
    } else {
        Seq::empty()
    };
    let ghost l1 = "{\"name\":\"exit_request\",\"request_id\":"@;
    let ghost l3 = "}"@;
    let ghost a1 = l1.len() as int;
    let ghost a2 = a1 + quoted(cx).len();
    proof {
        if canon {
            lemma_split3(v@, l1, quoted(cx), l3);
        }
    }
    let j1 = match lp_expect(v, 0, "{\"name\":\"exit_request\",\"request_id\":") {
        Some(j) => j,
        None => {
            proof {
                assert(!canon);
            }
            return None;
        }
    };
    let (x_s, j2) = match lp_string(v, j1) {
        Some(p) => p,
        None => {
            proof {
                if canon {
                    assert(v@.subrange(a1, a2) == quoted(cx));
                    assert(false);
                }
            }
            return None;
        }
    };
    proof {
        if canon {
            lemma_quoted_deterministic(v@, j1 as int, x_s@, j2 as int, cx, a2);
        }
    }
    let j3 = match lp_expect(v, j2, "}") {
        Some(j) => j,
        None => {
            proof {
                if canon {
                    assert(v@.subrange(a2, v@.len() as int) == l3);
                    assert(false);
                }
            }
            return None;
        }
    };
    if j3 == v.len() {
        let ghost xv = x_s@;
        let m = Message::ExitRequest { request_id: x_s };
        proof {
            lemma_cat3(v@, l1, quoted(xv), l3);
            assert(v@ == spec_encode(m@));
        }
        Some(m)
    } else {
        proof {
            if canon {
                assert(j3 as int == a2 + l3.len());
                assert(false);
            }
        }
        None
    }
}

/// Parses the `fork_request` line shape; exactly its canonical encodings
/// are accepted.
fn lp_fork_request(v: &Vec<char>) -> (r: Option<Message>)
    ensures
        r matches Some(m) ==> v@ == spec_encode(m@),
        (exists|rid: Seq<char>, rn: Seq<char>, cd: Seq<char>|
            v@ == spec_encode(
                MessageV::ForkRequest { request_id: rid, request_name: rn, code: cd },
            )) ==> r is Some,
{
    let ghost canon = exists|rid: Seq<char>, rn: Seq<char>, cd: Seq<char>|
        v@ == spec_encode(MessageV::ForkRequest { request_id: rid, request_name: rn, code: cd });
    let ghost (crid, crn, ccd): (Seq<char>, Seq<char>, Seq<char>) = if canon {
        choose|rid: Seq<char>, rn: Seq<char>, cd: Seq<char>|
            v@ == spec_encode(
                MessageV::ForkRequest { request_id: rid, request_name: rn, code: cd },
            )
    } else {
        (Seq::empty(), Seq::empty(), Seq::empty())
    };
    let ghost l1 = "{\"name\":\"fork_request\",\"request_id\":"@;
    let ghost l2 = ",\"request_name\":"@;
    let ghost l3 = ",\"code\":"@;
    let ghost l4 = "}"@;
    let ghost a1 = l1.len() as int;
    let ghost a2 = a1 + quoted(crid).len();
    let ghost a3 = a2 + l2.len();
    let ghost a4 = a3 + quoted(crn).len();
    let ghost a5 = a4 + l3.len();
    let ghost a6 = a5 + quoted(ccd).len();
    proof {
        if canon {
            lemma_split7(v@, l1, quoted(crid), l2, quoted(crn), l3, quoted(ccd), l4);
        }
    }
    let j1 = match lp_expect(v, 0, "{\"name\":\"fork_request\",\"request_id\":") {
        Some(j) => j,
        None => {
            proof {
                assert(!canon);
            }
            return None;
        }
    };
    let (rid_s, j2) = match lp_string(v, j1) {
        Some(p) => p,
        None => {
            proof {
                if canon {
                    assert(v@.subrange(a1, a2) == quoted(crid));
                    assert(false);
                }
            }
            return None;
        }
    };
    proof {
        if canon {
            lemma_quoted_deterministic(v@, j1 as int, rid_s@, j2 as int, crid, a2);
        }
    }
    let j3 = match lp_expect(v, j2, ",\"request_name\":") {
        Some(j) => j,
        None => {
            proof {
                if canon {
                    assert(v@.subrange(a2, a3) == l2);
                    assert(false);
                }
            }
            return None;
        }
    };
    let (rn_s, j4) = match lp_string(v, j3) {
        Some(p) => p,
        None => {
            proof {
                if canon {
                    assert(v@.subrange(a3, a4) == quoted(crn));
                    assert(false);
                }
            }
            return None;
        }
    };
    proof {
        if canon {
            lemma_quoted_deterministic(v@, j3 as int, rn_s@, j4 as int, crn, a4);
        }
    }
    let j5 = match lp_expect(v, j4, ",\"code\":") {
        Some(j) => j,
        None => {
            proof {
                if canon {
                    assert(v@.subrange(a4, a5) == l3);
                    assert(false);
                }
            }
            return None;
        }
    };
    let (cd_s, j6) = match lp_string(v, j5) {
        Some(p) => p,
        None => {
            proof {
                if canon {
                    assert(v@.subrange(a5, a6) == quoted(ccd));
                    assert(false);
                }
            }
            return None;
        }
    };
    proof {
        if canon {
            lemma_quoted_deterministic(v@, j5 as int, cd_s@, j6 as int, ccd, a6);
        }
    }
    let j7 = match lp_expect(v, j6, "}") {
        Some(j) => j,
        None => {
            proof {
                if canon {
                    assert(v@.subrange(a6, v@.len() as int) == l4);
                    assert(false);
                }
            }
            return None;
        }
    };
    if j7 == v.len() {
        let ghost ridv = rid_s@;
        let ghost rnv = rn_s@;
        let ghost cdv = cd_s@;
        let m = Message::ForkRequest { request_id: rid_s, request_name: rn_s, code: cd_s };
        proof {
            lemma_cat7(v@, l1, quoted(ridv), l2, quoted(rnv), l3, quoted(cdv), l4);
            assert(v@ == spec_encode(m@));
        }
        Some(m)
    } else {
        proof {
            if canon {
                assert(j7 as int == a6 + l4.len());
                assert(false);
            }
        }
        None
    }
}

/// Parses the `fork_response` line shape; exactly its canonical encodings
/// are accepted.
fn lp_fork_response(v: &Vec<char>) -> (r: Option<Message>)
    ensures
        r matches Some(m) ==> v@ == spec_encode(m@),
        (exists|rid: Seq<char>, rn: Seq<char>, pid: i32|
            v@ == spec_encode(
                MessageV::ForkResponse { request_id: rid, request_name: rn, child_pid: pid },
            )) ==> r is Some,
{
    let ghost canon = exists|rid: Seq<char>, rn: Seq<char>, pid: i32|
        v@ == spec_encode(
            MessageV::ForkResponse { request_id: rid, request_name: rn, child_pid: pid },
        );
    let ghost (crid, crn, cpid): (Seq<char>, Seq<char>, i32) = if canon {
        choose|rid: Seq<char>, rn: Seq<char>, pid: i32|
            v@ == spec_encode(
                MessageV::ForkResponse { request_id: rid, request_name: rn, child_pid: pid },
            )
    } else {
        (Seq::empty(), Seq::empty(), 0)
    };
    let ghost l1 = "{\"name\":\"fork_response\",\"request_id\":"@;
    let ghost l2 = ",\"request_name\":"@;
    let ghost l3 = ",\"child_pid\":"@;
    let ghost l4 = "}"@;
    let ghost a1 = l1.len() as int;
    let ghost a2 = a1 + quoted(crid).len();
    let ghost a3 = a2 + l2.len();
    let ghost a4 = a3 + quoted(crn).len();
    let ghost a5 = a4 + l3.len();
    let ghost a6 = a5 + int_repr(cpid as int).len();
    proof {
        if canon {
            lemma_split7(v@, l1, quoted(crid), l2, quoted(crn), l3, int_repr(cpid as int), l4);
        }
    }
    let j1 = match lp_expect(v, 0, "{\"name\":\"fork_response\",\"request_id\":") {
        Some(j) => j,
        None => {
            proof {
                assert(!canon);
            }
            return None;
        }
    };
    let (rid_s, j2) = match lp_string(v, j1) {
        Some(p) => p,
        None => {
            proof {
                if canon {
                    assert(v@.subrange(a1, a2) == quoted(crid));
                    assert(false);
                }
            }
            return None;
        }
    };
    proof {
        if canon {
            lemma_quoted_deterministic(v@, j1 as int, rid_s@, j2 as int, crid, a2);
        }
    }
    let j3 = match lp_expect(v, j2, ",\"request_name\":") {
        Some(j) => j,
        None => {
            proof {
                if canon {
                    assert(v@.subrange(a2, a3) == l2);
                    assert(false);
                }
            }
            return None;
        }
    };
    let (rn_s, j4) = match lp_string(v, j3) {
        Some(p) => p,
        None => {
            proof {
                if canon {
                    assert(v@.subrange(a3, a4) == quoted(crn));
                    assert(false);
                }
            }
            return None;
        }
    };
    proof {
        if canon {
            lemma_quoted_deterministic(v@, j3 as int, rn_s@, j4 as int, crn, a4);
        }
    }
    let j5 = match lp_expect(v, j4, ",\"child_pid\":") {
        Some(j) => j,
        None => {
            proof {
                if canon {
                    assert(v@.subrange(a4, a5) == l3);
                    assert(false);
                }
            }
            return None;
        }
    };
    proof {
        if canon {
            reveal_strlit("}");
            assert(l4.len() == 1);
            assert(v@.subrange(a6, v@.len() as int) == l4);
            assert(v@[a6] == v@.subrange(a6, v@.len() as int)[0]);
            assert(v@[a6] == '}');
            assert(!is_digit_char('}'));
        }
    }
    let (pid_v, j6) = match lp_i32(v, j5) {
        Some(p) => p,
        None => {
            proof {
                if canon {
                    assert(v@.subrange(a5, a6) == int_repr(cpid as int));
                    assert(false);
                }
            }
            return None;
        }
    };
    proof {
        if canon {
            lemma_int_repr_deterministic(
                v@,
                j5 as int,
                pid_v as int,
                j6 as int,
                cpid as int,
                a6,
            );
        }
    }
    let j7 = match lp_expect(v, j6, "}") {
        Some(j) => j,
        None => {
            proof {
                if canon {
                    assert(v@.subrange(a6, v@.len() as int) == l4);
                    assert(false);
                }
            }
            return None;
        }
    };
    if j7 == v.len() {
        let ghost ridv = rid_s@;
        let ghost rnv = rn_s@;
        let m = Message::ForkResponse { request_id: rid_s, request_name: rn_s, child_pid: pid_v };
        proof {
            lemma_cat7(v@, l1, quoted(ridv), l2, quoted(rnv), l3, int_repr(pid_v as int), l4);
            assert(v@ == spec_encode(m@));
        }
        Some(m)
    } else {
        proof {
            if canon {
                assert(j7 as int == a6 + l4.len());
                assert(false);
            }
        }
        None
    }
}

/// Three fixed positions that tell every message shape apart: the first
/// character of the discriminator and two characters inside it.
proof fn lemma_encode_probe(m: MessageV)
    ensures
        spec_encode(m).len() > 16,
        spec_encode(m)[9] == match m {
            MessageV::ImportComplete => 'i',
            MessageV::ImportError { .. } => 'i',
            MessageV::ForkRequest { .. } => 'f',
            MessageV::ForkResponse { .. } => 'f',
            MessageV::ChildComplete { .. } => 'c',
            MessageV::ChildError { .. } => 'c',
            MessageV::UnknownError { .. } => 'u',
            MessageV::ExitRequest { .. } => 'e',
        },
        spec_encode(m)[15] == match m {
            MessageV::ImportComplete => '_',
            MessageV::ImportError { .. } => '_',
            MessageV::ForkRequest { .. } => 'e',
            MessageV::ForkResponse { .. } => 'e',
            MessageV::ChildComplete { .. } => 'c',
            MessageV::ChildError { .. } => 'e',
            MessageV::UnknownError { .. } => 'n',
            MessageV::ExitRequest { .. } => 'e',
        },
        spec_encode(m)[16] == match m {
            MessageV::ImportComplete => 'c',
            MessageV::ImportError { .. } => 'e',
            MessageV::ForkRequest { .. } => 'q',
            MessageV::ForkResponse { .. } => 's',
            MessageV::ChildComplete { .. } => 'o',
            MessageV::ChildError { .. } => 'r',
            MessageV::UnknownError { .. } => '_',
            MessageV::ExitRequest { .. } => 'q',
        },
{
    match m {
        MessageV::ImportComplete => {
            reveal_strlit("{\"name\":\"import_complete\"}");
        }
        MessageV::ImportError { .. } => {
            reveal_strlit("{\"name\":\"import_error\",\"error\":");
        }
        MessageV::ForkRequest { .. } => {
            reveal_strlit("{\"name\":\"fork_request\",\"request_id\":");
        }
        MessageV::ForkResponse { .. } => {
            reveal_strlit("{\"name\":\"fork_response\",\"request_id\":");
        }
        MessageV::ChildComplete { .. } => {
            reveal_strlit("{\"name\":\"child_complete\",\"result\":");
        }
        MessageV::ChildError { .. } => {
            reveal_strlit("{\"name\":\"child_error\",\"error\":");
        }
        MessageV::UnknownError { .. } => {
            reveal_strlit("{\"name\":\"unknown_error\",\"error\":");
        }
        MessageV::ExitRequest { .. } => {
            reveal_strlit("{\"name\":\"exit_request\",\"request_id\":");
        }
    }
}

/// Canonical encodings are unambiguous: two messages with the same line
/// are the same message.  Together with `decode_message`'s contract, a
/// decoded line determines its message uniquely.
pub proof fn lemma_encode_injective(m1: MessageV, m2: MessageV)
    requires
        spec_encode(m1) == spec_encode(m2),
    ensures
        m1 == m2,
{
    let s = spec_encode(m1);
    match (m1, m2) {
        (MessageV::ImportComplete, MessageV::ImportComplete) => {}
        (
            MessageV::ImportError { error: e1, traceback: t1 },
            MessageV::ImportError { error: e2, traceback: t2 },
        ) => {
            let l1 = "{\"name\":\"import_error\",\"error\":"@;
            let l2 = ",\"traceback\":"@;
            let l3 = "}"@;
            lemma_split5(s, l1, quoted(e1), l2, opt_repr(t1), l3);
            lemma_split5(s, l1, quoted(e2), l2, opt_repr(t2), l3);
            let a1 = l1.len() as int;
            lemma_quoted_deterministic(s, a1, e1, a1 + quoted(e1).len(), e2, a1 + quoted(e2).len());
            let a3 = a1 + quoted(e1).len() + l2.len();
            lemma_opt_repr_deterministic(
                s,
                a3,
                t1,
                a3 + opt_repr(t1).len(),
                t2,
                a3 + opt_repr(t2).len(),
            );
            assert(m1 =~~= m2);
        }
        (
            MessageV::ForkRequest { request_id: r1, request_name: n1, code: c1 },
            MessageV::ForkRequest { request_id: r2, request_name: n2, code: c2 },
        ) => {
            let l1 = "{\"name\":\"fork_request\",\"request_id\":"@;
            let l2 = ",\"request_name\":"@;
            let l3 = ",\"code\":"@;
            let l4 = "}"@;
            lemma_split7(s, l1, quoted(r1), l2, quoted(n1), l3, quoted(c1), l4);
            lemma_split7(s, l1, quoted(r2), l2, quoted(n2), l3, quoted(c2), l4);
            let a1 = l1.len() as int;
            lemma_quoted_deterministic(s, a1, r1, a1 + quoted(r1).len(), r2, a1 + quoted(r2).len());
            let a3 = a1 + quoted(r1).len() + l2.len();
            lemma_quoted_deterministic(s, a3, n1, a3 + quoted(n1).len(), n2, a3 + quoted(n2).len());
            let a5 = a3 + quoted(n1).len() + l3.len();
            lemma_quoted_deterministic(s, a5, c1, a5 + quoted(c1).len(), c2, a5 + quoted(c2).len());
            assert(m1 =~~= m2);
        }
        (
            MessageV::ForkResponse { request_id: r1, request_name: n1, child_pid: p1 },
            MessageV::ForkResponse { request_id: r2, request_name: n2, child_pid: p2 },
        ) => {
            let l1 = "{\"name\":\"fork_response\",\"request_id\":"@;
            let l2 = ",\"request_name\":"@;
            let l3 = ",\"child_pid\":"@;
            let l4 = "}"@;
            lemma_split7(s, l1, quoted(r1), l2, quoted(n1), l3, int_repr(p1 as int), l4);
            lemma_split7(s, l1, quoted(r2), l2, quoted(n2), l3, int_repr(p2 as int), l4);
            let a1 = l1.len() as int;
            lemma_quoted_deterministic(s, a1, r1, a1 + quoted(r1).len(), r2, a1 + quoted(r2).len());
            let a3 = a1 + quoted(r1).len() + l2.len();
            lemma_quoted_deterministic(s, a3, n1, a3 + quoted(n1).len(), n2, a3 + quoted(n2).len());
            let a5 = a3 + quoted(n1).len() + l3.len();
            let a6a = a5 + int_repr(p1 as int).len();
            let a6b = a5 + int_repr(p2 as int).len();
            reveal_strlit("}");
            assert(s[a6a] == s.subrange(a6a, s.len() as int)[0]);
            assert(s[a6a] == '}');
            assert(s[a6b] == s.subrange(a6b, s.len() as int)[0]);
            assert(s[a6b] == '}');
            assert(!is_digit_char('}'));
            lemma_int_repr_deterministic(s, a5, p1 as int, a6a, p2 as int, a6b);
            assert(m1 =~~= m2);
        }
        (
            MessageV::ChildComplete { result: o1 },
            MessageV::ChildComplete { result: o2 },
        ) => {
            let l1 = "{\"name\":\"child_complete\",\"result\":"@;
            let l3 = "}"@;
            lemma_split3(s, l1, opt_repr(o1), l3);
            lemma_split3(s, l1, opt_repr(o2), l3);
            let a1 = l1.len() as int;
            lemma_opt_repr_deterministic(
                s,
                a1,
                o1,
                a1 + opt_repr(o1).len(),
                o2,
                a1 + opt_repr(o2).len(),
            );
            assert(m1 =~~= m2);
        }
        (
            MessageV::ChildError { error: e1, traceback: t1 },
            MessageV::ChildError { error: e2, traceback: t2 },
        ) => {
            let l1 = "{\"name\":\"child_error\",\"error\":"@;
            let l2 = ",\"traceback\":"@;
            let l3 = "}"@;
            lemma_split5(s, l1, quoted(e1), l2, opt_repr(t1), l3);
            lemma_split5(s, l1, quoted(e2), l2, opt_repr(t2), l3);
            let a1 = l1.len() as int;
            lemma_quoted_deterministic(s, a1, e1, a1 + quoted(e1).len(), e2, a1 + quoted(e2).len());
            let a3 = a1 + quoted(e1).len() + l2.len();
            lemma_opt_repr_deterministic(
                s,
                a3,
                t1,
                a3 + opt_repr(t1).len(),
                t2,
                a3 + opt_repr(t2).len(),
            );
            assert(m1 =~~= m2);
        }
        (MessageV::UnknownError { error: e1 }, MessageV::UnknownError { error: e2 }) => {
            let l1 = "{\"name\":\"unknown_error\",\"error\":"@;
            let l3 = "}"@;
            lemma_split3(s, l1, quoted(e1), l3);
            lemma_split3(s, l1, quoted(e2), l3);
            let a1 = l1.len() as int;
            lemma_quoted_deterministic(s, a1, e1, a1 + quoted(e1).len(), e2, a1 + quoted(e2).len());
            assert(m1 =~~= m2);
        }
        (MessageV::ExitRequest { request_id: r1 }, MessageV::ExitRequest { request_id: r2 }) => {
            let l1 = "{\"name\":\"exit_request\",\"request_id\":"@;
            let l3 = "}"@;
            lemma_split3(s, l1, quoted(r1), l3);
            lemma_split3(s, l1, quoted(r2), l3);
            let a1 = l1.len() as int;
            lemma_quoted_deterministic(s, a1, r1, a1 + quoted(r1).len(), r2, a1 + quoted(r2).len());
            assert(m1 =~~= m2);
        }
        _ => {
            lemma_encode_probe(m1);
            lemma_encode_probe(m2);
            assert(false);
        }
    }
}

} // verus!
