use vstd::prelude::*;
use vstd::string::StrSliceExecFns;

verus! {

/// What a single line of the worker's standard output means to the
/// readiness reader.
#[derive(Clone, Copy, Debug, PartialEq, Eq, Structural)]
pub enum LineClass {
    /// The readiness sentinel with a valid decimal port.
    Ready(u16),
    /// A sentinel line whose payload is not a decimal port.
    Malformed,
    /// Any other line; forwarded to diagnostics, never interpreted.
    Diagnostic,
}

/// The overall outcome of reading the worker's output during a launch.
#[derive(Clone, Copy, Debug, PartialEq, Eq, Structural)]
pub enum HandshakeOutcome {
    /// The sentinel appeared and carried this port.
    Ready(u16),
    /// The stream ended before any sentinel line.
    StreamEnded,
    /// A sentinel line appeared but its payload was not a decimal port.
    Malformed,
    /// Reading a line from the stream failed.
    ReadError,
}

/// The sentinel prefix the worker writes in front of its port.
pub open spec fn sentinel_prefix() -> Seq<char> {
    "LITTERA_SIDECAR_READY:"@
}

pub open spec fn is_ws(c: char) -> bool {
    c == ' ' || c == '\t' || c == '\r' || c == '\n'
}

pub open spec fn is_digit(c: char) -> bool {
    '0' as u32 <= c as u32 && c as u32 <= '9' as u32
}

pub open spec fn digit_val(c: char) -> int {
    c as u32 - '0' as u32
}

pub open spec fn all_digits(s: Seq<char>) -> bool {
    forall|i: int| 0 <= i < s.len() ==> is_digit(#[trigger] s[i])
}

/// The value of a digit string read most-significant first.
pub open spec fn digits_value(s: Seq<char>) -> int
    decreases s.len(),
{
    if s.len() == 0 {
        0
    } else {
        digits_value(s.drop_last()) * 10 + digit_val(s.last())
    }
}

pub open spec fn trim_front(s: Seq<char>) -> Seq<char>
    decreases s.len(),
{
    if s.len() > 0 && is_ws(s[0]) {
        trim_front(s.drop_first())
    } else {
        s
    }
}

pub open spec fn trim_back(s: Seq<char>) -> Seq<char>
    decreases s.len(),
{
    if s.len() > 0 && is_ws(s.last()) {
        trim_back(s.drop_last())
    } else {
        s
    }
}

/// The payload with surrounding whitespace removed.
pub open spec fn trimmed(s: Seq<char>) -> Seq<char> {
    trim_back(trim_front(s))
}

/// Whether a sentinel payload denotes a port: after trimming, a nonempty
/// digit string whose value fits in a u16.
pub open spec fn parses_as_port(s: Seq<char>) -> bool {
    &&& trimmed(s).len() > 0
    &&& all_digits(trimmed(s))
    &&& digits_value(trimmed(s)) <= u16::MAX as int
}

/// The port denoted by a payload that satisfies `parses_as_port`.
pub open spec fn port_value(s: Seq<char>) -> int {
    digits_value(trimmed(s))
}

/// How the readiness reader classifies one line.
pub open spec fn spec_classify(l: Seq<char>) -> LineClass {
    if l.len() >= sentinel_prefix().len() && l.subrange(0, sentinel_prefix().len() as int)
        == sentinel_prefix() {
        if parses_as_port(l.skip(sentinel_prefix().len() as int)) {
            LineClass::Ready(port_value(l.skip(sentinel_prefix().len() as int)) as u16)
        } else {
            LineClass::Malformed
        }
    } else {
        LineClass::Diagnostic
    }
}

/// The outcome of a whole transcript: the first line that is not
/// diagnostic decides; a transcript of only diagnostics means the worker
/// exited before signaling readiness.
pub open spec fn spec_handshake(lines: Seq<Seq<char>>) -> HandshakeOutcome
    decreases lines.len(),
{
    if lines.len() == 0 {
        HandshakeOutcome::StreamEnded
    } else {
        match spec_classify(lines[0]) {
            LineClass::Ready(p) => HandshakeOutcome::Ready(p),
            LineClass::Malformed => HandshakeOutcome::Malformed,
            LineClass::Diagnostic => spec_handshake(lines.drop_first()),
        }
    }
}

proof fn lemma_digits_value_nonneg(s: Seq<char>)
    requires
        all_digits(s),
    ensures
        digits_value(s) >= 0,
    decreases s.len(),
{
    if s.len() > 0 {
        assert(all_digits(s.drop_last()));
        lemma_digits_value_nonneg(s.drop_last());
    }
}

/// A digit string is worth at least any of its prefixes.
proof fn lemma_digits_value_take_le(s: Seq<char>, i: int)
    requires
        all_digits(s),
        0 <= i <= s.len(),
    ensures
        digits_value(s.take(i)) <= digits_value(s),
    decreases s.len() - i,
{
    if i == s.len() {
        assert(s.take(i) =~= s);
    } else {
        lemma_digits_value_take_le(s, i + 1);
        assert(s.take(i + 1).drop_last() =~= s.take(i));
        assert(all_digits(s.take(i)));
        lemma_digits_value_nonneg(s.take(i));
        assert(digits_value(s.take(i + 1)) == digits_value(s.take(i)) * 10 + digit_val(
            s.take(i + 1).last(),
        ));
    }
}

/// Parse the payload of a sentinel line: surrounding whitespace is
/// ignored; the rest must be a nonempty decimal number fitting a u16.
pub fn parse_port(s: &str) -> (r: Option<u16>)
    ensures
        parses_as_port(s@) ==> r == Some(port_value(s@) as u16),
        !parses_as_port(s@) ==> r is None,
{
    let n: usize = s.unicode_len();
    let mut lo: usize = 0;
    proof {
        assert(s@.skip(0) =~= s@);
    }
    while lo < n && is_ws_exec(s.get_char(lo))
        invariant
            0 <= lo <= n,
            n == s@.len(),
            trim_front(s@) == trim_front(s@.skip(lo as int)),
        decreases n - lo,
    {
        proof {
            assert(s@.skip(lo as int)[0] == s@[lo as int]);
            assert(s@.skip(lo as int).drop_first() =~= s@.skip(lo as int + 1));
        }
        lo = lo + 1;
    }
    if lo == n {
        proof {
            assert(s@.skip(lo as int) =~= Seq::<char>::empty());
            assert(trimmed(s@).len() == 0);
        }
        return None;
    }
    proof {
        assert(s@.skip(lo as int)[0] == s@[lo as int]);
        assert(trim_front(s@) == s@.skip(lo as int));
    }
    let ghost t0 = s@.skip(lo as int);
    let mut hi: usize = n;
    while hi > lo && is_ws_exec(s.get_char(hi - 1))
        invariant
            lo <= hi <= n,
            n == s@.len(),
            lo < n,
            t0 == s@.skip(lo as int),
            trim_back(t0) == trim_back(s@.subrange(lo as int, hi as int)),
        decreases hi,
    {
        proof {
            let cur = s@.subrange(lo as int, hi as int);
            assert(cur.last() == s@[hi - 1]);
            assert(cur.drop_last() =~= s@.subrange(lo as int, hi as int - 1));
        }
        hi = hi - 1;
    }
    if hi == lo {
        proof {
            assert(s@.subrange(lo as int, hi as int) =~= Seq::<char>::empty());
            assert(trimmed(s@).len() == 0);
        }
        return None;
    }
    let ghost t = s@.subrange(lo as int, hi as int);
    proof {
        assert(t.last() == s@[hi - 1]);
        assert(trimmed(s@) == t);
    }
    // Every character of the payload must be a decimal digit.
    let mut j: usize = lo;
    while j < hi
        invariant
            lo <= j <= hi <= n,
            n == s@.len(),
            t == s@.subrange(lo as int, hi as int),
            trimmed(s@) == t,
            forall|k: int| 0 <= k < j - lo ==> is_digit(#[trigger] t[k]),
        decreases hi - j,
    {
        let c = s.get_char(j);
        if !is_digit_exec(c) {
            proof {
                assert(t[j - lo] == s@[j as int]);
                assert(!all_digits(t));
            }
            return None;
        }
        proof {
            assert(t[j - lo] == s@[j as int]);
        }
        j = j + 1;
    }
    assert(all_digits(t));
    // Accumulate the value, stopping as soon as it can no longer fit.
    let mut acc: u32 = 0;
    let mut m: usize = lo;
    while m < hi
        invariant
            lo <= m <= hi <= n,
            n == s@.len(),
            t == s@.subrange(lo as int, hi as int),
            all_digits(t),
            trimmed(s@) == t,
            acc as int == digits_value(t.take(m - lo)),
            acc <= u16::MAX,
        decreases hi - m,
    {
        let c = s.get_char(m);
        proof {
            assert(t[m - lo] == s@[m as int]);
            assert(t.take(m - lo + 1).drop_last() =~= t.take(m - lo));
            assert(t.take(m - lo + 1).last() == t[m - lo]);
        }
        proof {
            assert(is_digit(t[m - lo]));
        }
        let d: u32 = c as u32 - '0' as u32;
        proof {
            assert(digits_value(t.take(m - lo + 1)) == digits_value(t.take(m - lo)) * 10
                + digit_val(t[m - lo]));
        }
        acc = acc * 10 + d;
        m = m + 1;
        proof {
            assert(acc as int == digits_value(t.take(m - lo)));
        }
        if acc > u16::MAX as u32 {
            proof {
                lemma_digits_value_take_le(t, m - lo);
                assert(digits_value(t) > u16::MAX as int);
                assert(!parses_as_port(s@));
            }
            return None;
        }
    }
    proof {
        assert(t.take(m - lo) =~= t);
    }
    Some(acc as u16)
}

/// Executable mirror of `is_ws`.
pub fn is_ws_exec(c: char) -> (r: bool)
    ensures
        r == is_ws(c),
{
    c == ' ' || c == '\t' || c == '\r' || c == '\n'
}

/// Executable mirror of `is_digit`.
pub fn is_digit_exec(c: char) -> (r: bool)
    ensures
        r == is_digit(c),
{
    c >= '0' && c <= '9'
}

/// Classify one line of worker output, exactly as `spec_classify` says.
pub fn classify_line(line: &str) -> (r: LineClass)
    ensures
        r == spec_classify(line@),
{
    proof {
        reveal_strlit("LITTERA_SIDECAR_READY:");
    }
    let prefix: &str = "LITTERA_SIDECAR_READY:";
    let plen: usize = prefix.unicode_len();
    let n: usize = line.unicode_len();
    if n < plen {
        return LineClass::Diagnostic;
    }
    let mut i: usize = 0;
    while i < plen
        invariant
            0 <= i <= plen,
            plen == sentinel_prefix().len(),
            prefix@ == sentinel_prefix(),
            n == line@.len(),
            plen <= n,
            forall|k: int| 0 <= k < i ==> line@[k] == sentinel_prefix()[k],
        decreases plen - i,
    {
        if line.get_char(i) != prefix.get_char(i) {
            proof {
                assert(line@.subrange(0, plen as int)[i as int] != sentinel_prefix()[i as int]);
            }
            return LineClass::Diagnostic;
        }
        i = i + 1;
    }
    proof {
        assert(line@.subrange(0, plen as int) =~= sentinel_prefix());
    }
    let rest: &str = line.substring_char(plen, n);
    proof {
        assert(rest@ =~= line@.skip(plen as int));
    }
    match parse_port(rest) {
        Some(p) => LineClass::Ready(p),
        None => LineClass::Malformed,
    }
}

/// Run the readiness reader over a full transcript of worker output.
/// The first line that is not diagnostic decides the outcome; if none is,
/// the worker ended its output before signaling readiness.
pub fn handshake(lines: &Vec<String>) -> (r: HandshakeOutcome)
    ensures
        r == spec_handshake(lines@.map_values(|l: String| l@)),
{
    let ghost all = lines@.map_values(|l: String| l@);
    let mut i: usize = 0;
    proof {
        assert(all.skip(0) =~= all);
    }
    while i < lines.len()
        invariant
            0 <= i <= lines@.len(),
            all == lines@.map_values(|l: String| l@),
            all.len() == lines@.len(),
            spec_handshake(all) == spec_handshake(all.skip(i as int)),
            forall|k: int| 0 <= k < i ==> spec_classify(#[trigger] all[k]) is Diagnostic,
        decreases lines@.len() - i,
    {
        let r = classify_line(lines[i].as_str());
        proof {
            assert(all.skip(i as int)[0] == all[i as int]);
            assert(all.skip(i as int).drop_first() =~= all.skip(i as int + 1));
        }
        match r {
            LineClass::Ready(p) => {
                return HandshakeOutcome::Ready(p);
            },
            LineClass::Malformed => {
                return HandshakeOutcome::Malformed;
            },
            LineClass::Diagnostic => {},
        }
        i = i + 1;
    }
    proof {
        assert(all.skip(i as int) =~= Seq::<Seq<char>>::empty());
    }
    HandshakeOutcome::StreamEnded
}

/// Law: diagnostic lines ahead of the rest of the transcript never change
/// the handshake's outcome.
pub proof fn lemma_diagnostic_prefix_ignored(l: Seq<char>, lines: Seq<Seq<char>>)
    requires
        spec_classify(l) is Diagnostic,
    ensures
        spec_handshake(seq![l] + lines) == spec_handshake(lines),
{
    let whole = seq![l] + lines;
    assert(whole[0] == l);
    assert(whole.drop_first() =~= lines);
}

/// Law: a handshake yields `Ready(p)` exactly when some line is the
/// readiness sentinel carrying `p` and every line before it is diagnostic.
pub proof fn lemma_handshake_ready_found(lines: Seq<Seq<char>>, p: u16)
    requires
        spec_handshake(lines) == HandshakeOutcome::Ready(p),
    ensures
        exists|i: int|
            0 <= i < lines.len() && spec_classify(#[trigger] lines[i]) == LineClass::Ready(p)
                && (forall|k: int| 0 <= k < i ==> spec_classify(#[trigger] lines[k]) is Diagnostic),
    decreases lines.len(),
{
    if spec_classify(lines[0]) is Diagnostic {
        lemma_handshake_ready_found(lines.drop_first(), p);
        let j = choose|j: int|
            0 <= j < lines.drop_first().len() && spec_classify(
                #[trigger] lines.drop_first()[j],
            ) == LineClass::Ready(p) && (forall|k: int|
                0 <= k < j ==> spec_classify(#[trigger] lines.drop_first()[k]) is Diagnostic);
        let i = j + 1;
        assert(lines[i] == lines.drop_first()[j]);
        assert(forall|k: int| 0 <= k < i ==> spec_classify(#[trigger] lines[k]) is Diagnostic)
            by {
            assert(forall|k: int|
                1 <= k < i ==> lines[k] == lines.drop_first()[k - 1] && spec_classify(
                    #[trigger] lines[k],
                ) is Diagnostic);
        }
        assert(0 <= i < lines.len() && spec_classify(lines[i]) == LineClass::Ready(p) && (
        forall|k: int| 0 <= k < i ==> spec_classify(#[trigger] lines[k]) is Diagnostic));
    } else {
        assert(spec_classify(lines[0]) == LineClass::Ready(p));
        assert(0 <= 0 < lines.len() && spec_classify(lines[0]) == LineClass::Ready(p) && (
        forall|k: int| 0 <= k < 0 ==> spec_classify(#[trigger] lines[k]) is Diagnostic));
    }
}

} // verus!
