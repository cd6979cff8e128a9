use vstd::prelude::*;

verus! {

use crate::errors::ClientError;

/// The announce event reported by a client. A request without an
/// `event` parameter carries `Unspecified`.
#[derive(Clone, Copy, Debug, PartialEq, Eq, Structural)]
pub enum Event {
    Started,
    Stopped,
    Completed,
    Unspecified,
}

/// ASCII bytes of `"started"`.
pub open spec fn lit_started() -> Seq<u8> {
    seq![115u8, 116u8, 97u8, 114u8, 116u8, 101u8, 100u8]
}

/// ASCII bytes of `"stopped"`.
pub open spec fn lit_stopped() -> Seq<u8> {
    seq![115u8, 116u8, 111u8, 112u8, 112u8, 101u8, 100u8]
}

/// ASCII bytes of `"completed"`.
pub open spec fn lit_completed() -> Seq<u8> {
    seq![99u8, 111u8, 109u8, 112u8, 108u8, 101u8, 116u8, 101u8, 100u8]
}

/// The event named by a parameter value: the three literal names, the
/// empty value for "no event", anything else is a malformed announce.
pub open spec fn spec_event_of_bytes(b: Seq<u8>) -> Result<Event, ClientError> {
    if b == lit_started() {
        Ok(Event::Started)
    } else if b == lit_stopped() {
        Ok(Event::Stopped)
    } else if b == lit_completed() {
        Ok(Event::Completed)
    } else if b.len() == 0 {
        Ok(Event::Unspecified)
    } else {
        Err(ClientError::MalformedAnnounce)
    }
}

/// The UTF-8 bytes that a text value is made of.
pub open spec fn string_bytes(s: Seq<char>) -> Seq<u8> {
    vstd::utf8::encode_utf8(s)
}

/// Byte-for-byte equality of two byte slices.
pub fn slice_eq(a: &[u8], b: &[u8]) -> (r: bool)
    ensures
        r == (a@ == b@),
{
    if a.len() != b.len() {
        proof {
            assert(a@ != b@);
        }
        return false;
    }
    let mut i: usize = 0;
    while i < a.len()
        invariant
            i <= a.len(),
            a.len() == b.len(),
            forall|j: int| 0 <= j < i ==> a@[j] == b@[j],
        decreases a.len() - i,
    {
        if a[i] != b[i] {
            return false;
        }
        i += 1;
    }
    proof {
        assert(a@ =~= b@);
    }
    true
}

/// Strict lexicographic order on byte strings: at the first differing
/// position the smaller byte decides; a proper prefix comes first.
pub open spec fn lex_lt(a: Seq<u8>, b: Seq<u8>) -> bool
    decreases a.len(),
{
    if b.len() == 0 {
        false
    } else if a.len() == 0 {
        true
    } else if a[0] != b[0] {
        a[0] < b[0]
    } else {
        lex_lt(a.skip(1), b.skip(1))
    }
}

/// Skipping an equal prefix does not change the lexicographic verdict.
pub proof fn lemma_lex_lt_skip(a: Seq<u8>, b: Seq<u8>, i: int)
    requires
        0 <= i <= a.len(),
        i <= b.len(),
        forall|j: int| 0 <= j < i ==> a[j] == b[j],
    ensures
        lex_lt(a, b) == lex_lt(a.skip(i), b.skip(i)),
    decreases i,
{
    if i > 0 {
        lemma_lex_lt_skip(a.skip(1), b.skip(1), i - 1);
        assert(a.skip(1).skip(i - 1) =~= a.skip(i));
        assert(b.skip(1).skip(i - 1) =~= b.skip(i));
        assert(a.skip(0) =~= a);
        assert(b.skip(0) =~= b);
    } else {
        assert(a.skip(0) =~= a);
        assert(b.skip(0) =~= b);
    }
}

/// Exactly one of `lex_lt(a, b)`, `lex_lt(b, a)` and `a == b` holds.
pub proof fn lemma_lex_lt_trichotomy(a: Seq<u8>, b: Seq<u8>)
    ensures
        a == b <==> (!lex_lt(a, b) && !lex_lt(b, a)),
        lex_lt(a, b) ==> !lex_lt(b, a),
    decreases a.len(),
{
    if a.len() == 0 || b.len() == 0 {
        if a.len() == 0 && b.len() == 0 {
            assert(a =~= b);
        }
    } else {
        lemma_lex_lt_trichotomy(a.skip(1), b.skip(1));
        if a[0] == b[0] {
            if !lex_lt(a, b) && !lex_lt(b, a) {
                assert(a.skip(1) == b.skip(1));
                assert(a =~= b) by {
                    assert(forall|j: int|
                        1 <= j < a.len() ==> a[j] == a.skip(1)[j - 1] && b[j] == b.skip(1)[j - 1]);
                }
            }
            if a == b {
                assert(a.skip(1) =~= b.skip(1));
            }
        }
    }
}

/// Lexicographic order is transitive.
pub proof fn lemma_lex_lt_transitive(a: Seq<u8>, b: Seq<u8>, c: Seq<u8>)
    requires
        lex_lt(a, b),
        lex_lt(b, c),
    ensures
        lex_lt(a, c),
    decreases a.len(),
{
    if a.len() > 0 {
        if a[0] == b[0] && b[0] == c[0] {
            lemma_lex_lt_transitive(a.skip(1), b.skip(1), c.skip(1));
        }
    }
}

/// Strict lexicographic comparison of two byte slices.
pub fn slice_lt(a: &[u8], b: &[u8]) -> (r: bool)
    ensures
        r == lex_lt(a@, b@),
{
    let mut i: usize = 0;
    let alen = a.len();
    let blen = b.len();
    let n = if alen < blen {
        alen
    } else {
        blen
    };
    while i < n
        invariant
            i <= n,
            n == if a@.len() < b@.len() {
                a@.len()
            } else {
                b@.len()
            },
            forall|j: int| 0 <= j < i ==> a@[j] == b@[j],
        decreases n - i,
    {
        if a[i] != b[i] {
            proof {
                lemma_lex_lt_skip(a@, b@, i as int);
            }
            return a[i] < b[i];
        }
        i += 1;
    }
    proof {
        lemma_lex_lt_skip(a@, b@, n as int);
    }
    alen < blen
}

/// Decides which event a raw parameter value names.
pub fn event_of_bytes(v: &[u8]) -> (r: Result<Event, ClientError>)
    ensures
        r == spec_event_of_bytes(v@),
{
    let started: Vec<u8> = vec![115u8, 116u8, 97u8, 114u8, 116u8, 101u8, 100u8];
    let stopped: Vec<u8> = vec![115u8, 116u8, 111u8, 112u8, 112u8, 101u8, 100u8];
    let completed: Vec<u8> = vec![99u8, 111u8, 109u8, 112u8, 108u8, 101u8, 116u8, 101u8, 100u8];
    proof {
        assert(started@ =~= lit_started());
        assert(stopped@ =~= lit_stopped());
        assert(completed@ =~= lit_completed());
    }
    if slice_eq(v, started.as_slice()) {
        Ok(Event::Started)
    } else if slice_eq(v, stopped.as_slice()) {
        Ok(Event::Stopped)
    } else if slice_eq(v, completed.as_slice()) {
        Ok(Event::Completed)
    } else if v.len() == 0 {
        Ok(Event::Unspecified)
    } else {
        Err(ClientError::MalformedAnnounce)
    }
}

/// Parses an event name given as text, as the query layer hands it over.
pub fn string_to_event(s: String) -> (r: Result<Event, ClientError>)
    ensures
        r == spec_event_of_bytes(string_bytes(s@)),
{
    event_of_bytes(s.as_str().as_bytes())
}

pub open spec fn spec_event_to_string(event: Event) -> Seq<char> {
    match event {
        Event::Started => "started"@,
        Event::Stopped => "stopped"@,
        Event::Completed => "completed"@,
        Event::Unspecified => ""@,
    }
}

/// The canonical name of an event; the empty string for `Unspecified`.
pub fn event_to_string(event: Event) -> (r: &'static str)
    ensures
        r@ == spec_event_to_string(event),
{
    match event {
        Event::Started => "started",
        Event::Stopped => "stopped",
        Event::Completed => "completed",
        Event::Unspecified => "",
    }
}

} // verus!
