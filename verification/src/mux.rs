//! The log demultiplexer: every line a loader or worker emits is wrapped by
//! the loader's in-process multiplexer as `pid:stream:content`.  This module
//! parses that envelope; a line that does not carry it is handed through as
//! an unmultiplexed line.

use vstd::prelude::*;

use crate::codec::{all_digits, dec_digits, is_digit_char, push_char, str_chars};

verus! {

/// The stream a multiplexed line was written to.
#[derive(Debug, Clone, Copy, PartialEq, Eq, Structural)]
pub enum StreamKind {
    Stdout,
    Stderr,
}

/// One parsed multiplexed line.
pub struct MultiplexedLine {
    /// The emitting process.
    pub pid: u32,
    /// The stream it wrote to.
    pub stream: StreamKind,
    /// The line's payload, which may itself contain colons.
    pub content: String,
}

/// The mathematical value of a `MultiplexedLine`.
#[verifier::ext_equal]
pub struct MultiplexedLineV {
    pub pid: u32,
    pub stream: StreamKind,
    pub content: Seq<char>,
}

impl View for MultiplexedLine {
    type V = MultiplexedLineV;

    open spec fn view(&self) -> MultiplexedLineV {
        MultiplexedLineV { pid: self.pid, stream: self.stream, content: self.content@ }
    }
}

/// The name of a stream on the wire.
pub open spec fn stream_name(k: StreamKind) -> Seq<char> {
    match k {
        StreamKind::Stdout => "stdout"@,
        StreamKind::Stderr => "stderr"@,
    }
}

/// The canonical envelope of a multiplexed line: `pid:stream:content`.
pub open spec fn mux_repr(m: MultiplexedLineV) -> Seq<char> {
    dec_digits(m.pid as nat) + seq![':'] + stream_name(m.stream) + seq![':'] + m.content
}

/// The envelope's middle: the colon, the stream name, and the second colon.
spec fn stream_mid(k: StreamKind) -> Seq<char> {
    seq![':'] + stream_name(k) + seq![':']
}

/// The middle is the one literal the parser expects for each stream.
proof fn lemma_stream_mid(k: StreamKind)
    ensures
        k == StreamKind::Stdout ==> stream_mid(k) == ":stdout:"@,
        k == StreamKind::Stderr ==> stream_mid(k) == ":stderr:"@,
{
    reveal_strlit("stdout");
    reveal_strlit("stderr");
    reveal_strlit(":stdout:");
    reveal_strlit(":stderr:");
    match k {
        StreamKind::Stdout => {
            assert(stream_mid(k) =~= ":stdout:"@);
        }
        StreamKind::Stderr => {
            assert(stream_mid(k) =~= ":stderr:"@);
        }
    }
}

/// Reads the leading decimal pid, stopping at the first non-digit.
/// Exactly the canonical pid regions are accepted: no leading zero and a
/// value that fits a `u32`.
fn lp_pid(v: &Vec<char>, i: usize) -> (r: Option<(u32, usize)>)
    ensures
        r matches Some(p) ==> i <= p.1 <= v@.len() && v@.subrange(i as int, p.1 as int)
            == dec_digits(p.0 as nat) && (p.1 == v@.len() || !is_digit_char(v@[p.1 as int])),
        (exists|pid: u32, jn: int|
            i <= jn <= v@.len() && v@.subrange(i as int, jn) == dec_digits(pid as nat) && (jn
                == v@.len() || !is_digit_char(v@[jn]))) ==> r is Some,
{
    let ghost canon = exists|pid: u32, jn: int|
        i <= jn <= v@.len() && v@.subrange(i as int, jn) == dec_digits(pid as nat) && (jn
            == v@.len() || !is_digit_char(v@[jn]));
    let ghost (cpid, cjn): (u32, int) = if canon {
        choose|pid: u32, jn: int|
            i <= jn <= v@.len() && v@.subrange(i as int, jn) == dec_digits(pid as nat) && (jn
                == v@.len() || !is_digit_char(v@[jn]))
    } else {
        (0, 0)
    };
    let ghost cdigits = dec_digits(cpid as nat);
    proof {
        if canon {
            crate::codec::lemma_dec_digits_props(cpid as nat);
        }
    }
    let n = v.len();
    if i > n {
        proof {
            if canon {
                assert(cdigits.len() >= 1);
            }
            assert(!canon);
        }
        return None;
    }
    let mut j = i;
    let mut acc: u64 = 0;
    let mut digits: usize = 0;
    while j < n && v[j] >= '0' && v[j] <= '9'
        invariant
            i <= j <= n,
            n == v@.len(),
            digits == j - i,
            forall|k: int| i <= k < j ==> is_digit_char(#[trigger] v@[k]),
            acc == crate::codec::val_acc(v@.subrange(i as int, j as int), 0),
            acc <= 0xffff_ffff,
            canon == (exists|pid: u32, jn: int|
                i <= jn <= v@.len() && v@.subrange(i as int, jn) == dec_digits(pid as nat) && (jn
                    == v@.len() || !is_digit_char(v@[jn]))),
            canon ==> i <= j <= cjn && cjn <= n && v@.subrange(i as int, cjn) == cdigits
                && all_digits(cdigits) && crate::codec::val_acc(cdigits, 0) == cpid as nat && (cjn
                == n || !is_digit_char(v@[cjn])),
        decreases n - j,
    {
        let c = v[j];
        let d: u64 = (c as u64) - 48;
        let ghost prevregion = v@.subrange(i as int, j as int);
        proof {
            assert(is_digit_char(c));
            assert(crate::codec::digit_val(c) == d);
            assert(v@.subrange(i as int, j + 1) =~= prevregion.push(c));
            crate::codec::lemma_val_acc_push(prevregion, 0, c);
            if canon {
                assert(j < cjn) by {
                    if j >= cjn {
                        if j > cjn {
                            assert(v@[cjn] == cdigits[cjn - i]);
                        }
                    }
                }
                assert(v@.subrange(i as int, j + 1) =~= cdigits.take(j + 1 - i)) by {
                    assert(forall|k: int|
                        0 <= k < j + 1 - i ==> v@[i + k] == #[trigger] cdigits[k]);
                }
                crate::codec::lemma_val_acc_prefix_le(cdigits, j + 1 - i);
            }
        }
        acc = acc * 10 + d;
        if acc > 0xffff_ffff {
            proof {
                assert(!canon);
            }
            return None;
        }
        digits = digits + 1;
        j = j + 1;
    }
    proof {
        if canon {
            assert(j == cjn) by {
                if j < cjn {
                    assert(v@[j as int] == cdigits[j - i]);
                }
            }
            assert(v@.subrange(i as int, j as int) =~= cdigits);
        }
    }
    if digits == 0 {
        proof {
            if canon {
                assert(cdigits.len() >= 1);
            }
            assert(!canon);
        }
        return None;
    }
    if digits > 1 && v[i] == '0' {
        proof {
            if canon {
                assert(cdigits.first() == v@[i as int]);
                assert(cpid as nat >= 1) by {
                    if cpid == 0 {
                        assert(cdigits =~= seq![crate::codec::digit_char(0)]);
                    }
                }
                assert(false);
            }
        }
        return None;
    }
    let ghost region = v@.subrange(i as int, j as int);
    proof {
        crate::codec::lemma_digits_unique(region, acc as nat);
    }
    Some((acc as u32, j))
}

/// The payload from `start` to the end of the line.
fn tail_string(v: &Vec<char>, start: usize) -> (r: String)
    requires
        start <= v@.len(),
    ensures
        r@ == v@.subrange(start as int, v@.len() as int),
{
    let n = v.len();
    let mut out = String::new();
    let mut j = start;
    while j < n
        invariant
            start <= j <= n,
            n == v@.len(),
            out@ == v@.subrange(start as int, j as int),
        decreases n - j,
    {
        push_char(&mut out, v[j]);
        proof {
            assert(v@.subrange(start as int, j + 1) =~= v@.subrange(start as int, j as int).push(
                v@[j as int],
            ));
        }
        j = j + 1;
    }
    out
}

/// Parses one line of child output.  A line is accepted exactly when it is
/// the canonical envelope of a multiplexed line: on success the line is
/// the returned value's envelope, and a refused line is the envelope of
/// nothing — it is handed back to the caller as an unmultiplexed line.
pub fn parse_multiplexed_line(line: &str) -> (r: Option<MultiplexedLine>)
    ensures
        r matches Some(m) ==> line@ == mux_repr(m@),
        r is None ==> forall|m: MultiplexedLineV| line@ != mux_repr(m),
{
    let v = str_chars(line);
    let ghost canon = exists|m: MultiplexedLineV| v@ == mux_repr(m);
    let ghost cm: MultiplexedLineV = if canon {
        choose|m: MultiplexedLineV| v@ == mux_repr(m)
    } else {
        MultiplexedLineV { pid: 0, stream: StreamKind::Stdout, content: Seq::empty() }
    };
    let ghost cdigits = dec_digits(cm.pid as nat);
    let ghost cmid = stream_mid(cm.stream);
    proof {
        if canon {
            lemma_stream_mid(cm.stream);
            assert(mux_repr(cm) =~= cdigits + cmid + cm.content);
            crate::codec::lemma_split3(v@, cdigits, cmid, cm.content);
            assert(v@[cdigits.len() as int] == cmid[0]);
            assert(!is_digit_char(':'));
        }
    }
    let (pid, j) = match lp_pid(&v, 0) {
        Some(p) => p,
        None => {
            proof {
                if canon {
                    assert(v@.subrange(0, cdigits.len() as int) == cdigits);
                    assert(false);
                }
            }
            return None;
        }
    };
    proof {
        if canon {
            crate::codec::lemma_dec_digits_props(cm.pid as nat);
            crate::codec::lemma_dec_digits_props(pid as nat);
            assert(j as int == cdigits.len()) by {
                if j as int > cdigits.len() {
                    assert(v@.subrange(0, j as int)[cdigits.len() as int] == v@[cdigits.len() as int]);
                    assert(dec_digits(pid as nat)[cdigits.len() as int] == v@[cdigits.len() as int]);
                    assert(is_digit_char(v@[cdigits.len() as int]));
                } else if (j as int) < cdigits.len() {
                    assert(v@.subrange(0, cdigits.len() as int)[j as int] == v@[j as int]);
                    assert(v@[j as int] == cdigits[j as int]);
                    assert(is_digit_char(v@[j as int]));
                }
            }
        }
    }
    let parsed = match crate::codec::lp_expect(&v, j, ":stdout:") {
        Some(k) => Some((StreamKind::Stdout, k)),
        None => match crate::codec::lp_expect(&v, j, ":stderr:") {
            Some(k) => Some((StreamKind::Stderr, k)),
            None => None,
        },
    };
    match parsed {
        Some((stream, start)) => {
            let content = tail_string(&v, start);
            let m = MultiplexedLine { pid, stream, content };
            proof {
                lemma_stream_mid(stream);
                assert(mux_repr(m@) =~= dec_digits(pid as nat) + stream_mid(stream) + m.content@);
                crate::codec::lemma_cat3(
                    v@,
                    dec_digits(pid as nat),
                    stream_mid(stream),
                    m.content@,
                );
                assert(v@ == mux_repr(m@));
            }
            Some(m)
        }
        None => {
            proof {
                if canon {
                    assert(v@.subrange(j as int, j + cmid.len()) == cmid);
                    lemma_stream_mid(cm.stream);
                    match cm.stream {
                        StreamKind::Stdout => {
                            assert(v@.subrange(j as int, j + ":stdout:"@.len()) == ":stdout:"@);
                        }
                        StreamKind::Stderr => {
                            assert(v@.subrange(j as int, j + ":stderr:"@.len()) == ":stderr:"@);
                        }
                    }
                    assert(false);
                }
            }
            None
        }
    }
}

} // verus!
