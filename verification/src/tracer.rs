//! The decisions of the kernel tracer: which levels are enabled, how log
//! levels are named and parsed, span identifiers and the per-CPU
//! indentation of nested spans.

use vstd::prelude::*;

use crate::cpu::CpuState;
use crate::trap::irq::disable_local;

verus! {

/// The level of a trace event, from the most to the least important.
#[derive(Clone, Copy, Debug, PartialEq, Eq, Structural)]
pub enum LogLevel {
    Error,
    Warn,
    Info,
    Debug,
    Trace,
}

/// A filter of trace events: the least important level that is enabled,
/// or `Off` for none.
#[derive(Clone, Copy, Debug, PartialEq, Eq, Structural)]
pub enum LogLevelFilter {
    Off,
    Error,
    Warn,
    Info,
    Debug,
    Trace,
}

/// The verbosity of a level: 1 for `Error` up to 5 for `Trace`.
pub open spec fn level_rank(l: LogLevel) -> int {
    match l {
        LogLevel::Error => 1,
        LogLevel::Warn => 2,
        LogLevel::Info => 3,
        LogLevel::Debug => 4,
        LogLevel::Trace => 5,
    }
}

/// The verbosity of a filter: 0 for `Off` up to 5 for `Trace`.
pub open spec fn filter_rank(f: LogLevelFilter) -> int {
    match f {
        LogLevelFilter::Off => 0,
        LogLevelFilter::Error => 1,
        LogLevelFilter::Warn => 2,
        LogLevelFilter::Info => 3,
        LogLevelFilter::Debug => 4,
        LogLevelFilter::Trace => 5,
    }
}

/// The number of spaces per indentation level.
pub const INDENT_MULTIPLIER: u64 = 2;

/// Whether events of `level` pass the filter `max_level`: those at most as
/// verbose as the filter do.
pub fn enabled(level: LogLevel, max_level: LogLevelFilter) -> (r: bool)
    ensures
        r == (level_rank(level) <= filter_rank(max_level)),
        r == match max_level {
            LogLevelFilter::Off => false,
            LogLevelFilter::Error => level == LogLevel::Error,
            LogLevelFilter::Warn => level == LogLevel::Error || level == LogLevel::Warn,
            LogLevelFilter::Info => !(level == LogLevel::Debug || level == LogLevel::Trace),
            LogLevelFilter::Debug => level != LogLevel::Trace,
            LogLevelFilter::Trace => true,
        },
{
    let l: u8 = match level {
        LogLevel::Error => 1,
        LogLevel::Warn => 2,
        LogLevel::Info => 3,
        LogLevel::Debug => 4,
        LogLevel::Trace => 5,
    };
    let m: u8 = match max_level {
        LogLevelFilter::Off => 0,
        LogLevelFilter::Error => 1,
        LogLevelFilter::Warn => 2,
        LogLevelFilter::Info => 3,
        LogLevelFilter::Debug => 4,
        LogLevelFilter::Trace => 5,
    };
    l <= m
}

/// The prefix of the lines of a level.
pub fn level_prefix(level: LogLevel) -> (r: &'static str)
    ensures
        r@ == match level {
            LogLevel::Trace => "[TRACE]"@,
            LogLevel::Debug => "[DEBUG]"@,
            LogLevel::Info => "[INFO]"@,
            LogLevel::Warn => "[WARN]"@,
            LogLevel::Error => "[ERROR]"@,
        },
{
    match level {
        LogLevel::Trace => "[TRACE]",
        LogLevel::Debug => "[DEBUG]",
        LogLevel::Info => "[INFO]",
        LogLevel::Warn => "[WARN]",
        LogLevel::Error => "[ERROR]",
    }
}

/// An ASCII byte in lower case.
pub open spec fn ascii_lower(b: u8) -> u8 {
    if 65 <= b <= 90 { (b + 32) as u8 } else { b }
}

/// `s` spells the lower-case `word` in any mix of cases.
pub open spec fn matches_word(s: Seq<u8>, word: Seq<u8>) -> bool {
    &&& s.len() == word.len()
    &&& forall|i: int| 0 <= i < s.len() ==> ascii_lower(#[trigger] s[i]) == word[i]
}

/// Whether `s` spells `word`, which is in lower case, ignoring case.
fn eq_ignore_case(s: &[u8], word: &[u8]) -> (r: bool)
    ensures
        r == matches_word(s@, word@),
{
    if s.len() != word.len() {
        return false;
    }
    let mut i: usize = 0;
    while i < s.len()
        invariant
            i <= s@.len(),
            s@.len() == word@.len(),
            forall|j: int| 0 <= j < i ==> ascii_lower(#[trigger] s@[j]) == word@[j],
        decreases s@.len() - i,
    {
        let b = s[i];
        let lower = if 65 <= b && b <= 90 { b + 32 } else { b };
        if lower != word[i] {
            return false;
        }
        i = i + 1;
    }
    true
}

/// The filter named by `s`, ignoring case, and whether `s` names one at
/// all: "trace", "debug", "info", "warn", "error" and "off"; any other
/// string gives `Info`.
pub open spec fn parsed_level(s: Seq<u8>) -> (LogLevelFilter, bool) {
    if matches_word(s, seq![116u8, 114, 97, 99, 101]) {
        (LogLevelFilter::Trace, true)
    } else if matches_word(s, seq![100u8, 101, 98, 117, 103]) {
        (LogLevelFilter::Debug, true)
    } else if matches_word(s, seq![105u8, 110, 102, 111]) {
        (LogLevelFilter::Info, true)
    } else if matches_word(s, seq![119u8, 97, 114, 110]) {
        (LogLevelFilter::Warn, true)
    } else if matches_word(s, seq![101u8, 114, 114, 111, 114]) {
        (LogLevelFilter::Error, true)
    } else if matches_word(s, seq![111u8, 102, 102]) {
        (LogLevelFilter::Off, true)
    } else {
        (LogLevelFilter::Info, false)
    }
}

/// Parses the name of a log level, ignoring case. An unknown name gives
/// `Info`, with `false` so that the caller can warn about it.
pub fn parse_log_level(s: &[u8]) -> (r: (LogLevelFilter, bool))
    ensures
        r == parsed_level(s@),
        !r.1 ==> r.0 == LogLevelFilter::Info,
        spells_ignoring_case(s@, seq![116u8, 114, 97, 99, 101]) ==> r == (LogLevelFilter::Trace, true),
        spells_ignoring_case(s@, seq![100u8, 101, 98, 117, 103]) ==> r == (LogLevelFilter::Debug, true),
        spells_ignoring_case(s@, seq![105u8, 110, 102, 111]) ==> r == (LogLevelFilter::Info, true),
        spells_ignoring_case(s@, seq![119u8, 97, 114, 110]) ==> r == (LogLevelFilter::Warn, true),
        spells_ignoring_case(s@, seq![101u8, 114, 114, 111, 114]) ==> r == (LogLevelFilter::Error, true),
        spells_ignoring_case(s@, seq![111u8, 102, 102]) ==> r == (LogLevelFilter::Off, true),
        r.1 ==> {
            ||| spells_ignoring_case(s@, seq![116u8, 114, 97, 99, 101])
            ||| spells_ignoring_case(s@, seq![100u8, 101, 98, 117, 103])
            ||| spells_ignoring_case(s@, seq![105u8, 110, 102, 111])
            ||| spells_ignoring_case(s@, seq![119u8, 97, 114, 110])
            ||| spells_ignoring_case(s@, seq![101u8, 114, 114, 111, 114])
            ||| spells_ignoring_case(s@, seq![111u8, 102, 102])
        },
{
    proof {
        lemma_parse_level_names(s@);
    }
    let trace: [u8; 5] = [116, 114, 97, 99, 101];
    let debug: [u8; 5] = [100, 101, 98, 117, 103];
    let info: [u8; 4] = [105, 110, 102, 111];
    let warn: [u8; 4] = [119, 97, 114, 110];
    let error: [u8; 5] = [101, 114, 114, 111, 114];
    let off: [u8; 3] = [111, 102, 102];
    proof {
        assert(trace@ =~= seq![116u8, 114, 97, 99, 101]);
        assert(debug@ =~= seq![100u8, 101, 98, 117, 103]);
        assert(info@ =~= seq![105u8, 110, 102, 111]);
        assert(warn@ =~= seq![119u8, 97, 114, 110]);
        assert(error@ =~= seq![101u8, 114, 114, 111, 114]);
        assert(off@ =~= seq![111u8, 102, 102]);
    }
    if eq_ignore_case(s, trace.as_slice()) {
        (LogLevelFilter::Trace, true)
    } else if eq_ignore_case(s, debug.as_slice()) {
        (LogLevelFilter::Debug, true)
    } else if eq_ignore_case(s, info.as_slice()) {
        (LogLevelFilter::Info, true)
    } else if eq_ignore_case(s, warn.as_slice()) {
        (LogLevelFilter::Warn, true)
    } else if eq_ignore_case(s, error.as_slice()) {
        (LogLevelFilter::Error, true)
    } else if eq_ignore_case(s, off.as_slice()) {
        (LogLevelFilter::Off, true)
    } else {
        (LogLevelFilter::Info, false)
    }
}

/// The source of span identifiers, which are unique and start at 1.
pub struct SpanIds {
    next: u64,
}

impl SpanIds {
    /// The identifier that the next span gets.
    pub closed spec fn next_id(self) -> u64 {
        self.next
    }

    /// A source whose first identifier is 1.
    pub fn new() -> (r: Self)
        ensures
            r.next_id() == 1,
    {
        SpanIds { next: 1 }
    }

    /// Hands out the next identifier; the counter wraps around at the
    /// largest value.
    pub fn new_span_id(&mut self) -> (r: u64)
        ensures
            r == old(self).next_id(),
            final(self).next_id() == if old(self).next_id() == u64::MAX { 0 } else { (old(self).next_id() + 1) as u64 },
    {
        let id = self.next;
        self.next = if id == u64::MAX { 0 } else { id + 1 };
        id
    }
}

/// Enters a span on this CPU: the indentation level goes up by one (it
/// saturates). Local IRQs are disabled while it changes and restored
/// afterwards.
pub fn enter_span(indent: &mut u64, cpu: &mut CpuState)
    ensures
        *final(indent) == if *old(indent) == u64::MAX { u64::MAX } else { (*old(indent) + 1) as u64 },
        *final(cpu) == *old(cpu),
{
    let guard = disable_local(cpu);
    let current = *indent;
    *indent = current.saturating_add(1);
    guard.release(cpu);
}

/// Exits a span on this CPU: the indentation level goes down by one (it
/// stops at zero) and is returned. Local IRQs are disabled while it changes
/// and restored afterwards.
pub fn exit_span(indent: &mut u64, cpu: &mut CpuState) -> (r: u64)
    ensures
        r == *final(indent),
        *final(indent) == if *old(indent) == 0 { 0 } else { (*old(indent) - 1) as u64 },
        *final(cpu) == *old(cpu),
{
    let guard = disable_local(cpu);
    let current = *indent;
    let new_level = current.saturating_sub(1);
    *indent = new_level;
    guard.release(cpu);
    new_level
}

/// The number of spaces that a line at indentation level `level` begins
/// with.
pub fn indent_width(level: u64) -> (r: u64)
    requires
        level * INDENT_MULTIPLIER <= u64::MAX,
    ensures
        r == level * INDENT_MULTIPLIER,
{
    level * INDENT_MULTIPLIER
}

/// The prefix of the kernel command-line argument that sets the log level,
/// `ostd.log_level=`.
pub open spec fn log_level_key() -> Seq<u8> {
    seq![111u8, 115, 116, 100, 46, 108, 111, 103, 95, 108, 101, 118, 101, 108, 61]
}

/// `[a, b)` is one of the pieces of `s` between spaces.
pub open spec fn is_piece(s: Seq<u8>, a: int, b: int) -> bool {
    &&& 0 <= a <= b <= s.len()
    &&& (a == 0 || s[a - 1] == 32)
    &&& (b == s.len() || s[b] == 32)
    &&& forall|i: int| a <= i < b ==> s[i] != 32
}

/// The piece `[a, b)` of `s` begins with the log-level key.
pub open spec fn is_key_piece(s: Seq<u8>, a: int, b: int) -> bool {
    &&& b - a >= log_level_key().len()
    &&& forall|i: int| 0 <= i < log_level_key().len() ==> s[a + i] == #[trigger] log_level_key()[i]
}

/// `e` is the last `=` in `[a, b)`.
pub open spec fn last_eq(s: Seq<u8>, a: int, b: int, e: int) -> bool {
    &&& a <= e < b
    &&& s[e] == 61
    &&& forall|j: int| e < j < b ==> s[j] != 61
}

/// Whether the first key piece of `s` is `[a, b)` and its value, the part
/// after its last `=`, begins at `v`.
pub open spec fn log_level_value_at(s: Seq<u8>, a: int, b: int, v: int) -> bool {
    &&& is_piece(s, a, b)
    &&& is_key_piece(s, a, b)
    &&& forall|a2: int, b2: int| #![trigger is_piece(s, a2, b2)] is_piece(s, a2, b2) && a2 < a ==> !is_key_piece(s, a2, b2)
    &&& last_eq(s, a, b, v - 1)
}

/// Finds the value of the log-level argument in the kernel command line:
/// the first of the space-separated arguments that begins with
/// `ostd.log_level=`, from after its last `=` to its end. Returns the
/// bounds of the value, or `None` when no argument sets the level.
pub fn log_level_value(cmdline: &[u8]) -> (r: Option<(usize, usize)>)
    ensures
        r is Some ==> exists|a: int| #![trigger log_level_value_at(cmdline@, a, r->Some_0.1 as int, r->Some_0.0 as int)]
            log_level_value_at(cmdline@, a, r->Some_0.1 as int, r->Some_0.0 as int),
        r is None ==> forall|a: int, b: int| #![trigger is_piece(cmdline@, a, b)] is_piece(cmdline@, a, b) ==> !is_key_piece(cmdline@, a, b),
{
    let key: [u8; 15] = [111, 115, 116, 100, 46, 108, 111, 103, 95, 108, 101, 118, 101, 108, 61];
    proof {
        assert(key@ =~= log_level_key());
    }
    let n = cmdline.len();
    let mut a: usize = 0;
    loop
        invariant
            a <= n,
            n == cmdline@.len(),
            key@ == log_level_key(),
            a == 0 || cmdline@[a - 1] == 32,
            forall|a2: int, b2: int| #![trigger is_piece(cmdline@, a2, b2)] is_piece(cmdline@, a2, b2) && a2 < a ==> !is_key_piece(cmdline@, a2, b2),
        decreases n - a,
    {
        // The end of the piece that starts at `a`.
        let mut b: usize = a;
        while b < n && cmdline[b] != 32
            invariant
                a <= b <= n,
                n == cmdline@.len(),
                forall|i: int| a <= i < b ==> cmdline@[i] != 32,
            decreases n - b,
        {
            b = b + 1;
        }
        proof {
            assert(is_piece(cmdline@, a as int, b as int));
        }
        // Whether the piece begins with the key.
        let mut is_key = b - a >= 15;
        let mut i: usize = 0;
        if is_key {
            while i < 15 && cmdline[a + i] == key[i]
                invariant
                    i <= 15,
                    b - a >= 15,
                    b <= n,
                    n == cmdline@.len(),
                    key@ == log_level_key(),
                    forall|j: int| 0 <= j < i ==> cmdline@[a + j] == #[trigger] log_level_key()[j],
                decreases 15 - i,
            {
                i = i + 1;
            }
            is_key = i == 15;
            proof {
                if !is_key {
                    assert(cmdline@[a + i] != log_level_key()[i as int]);
                }
            }
        }
        proof {
            assert(is_key == is_key_piece(cmdline@, a as int, b as int));
        }
        if is_key {
            // The value begins after the last `=`, which exists in the key.
            let mut e: usize = b - 1;
            proof {
                assert(cmdline@[a + 14] == log_level_key()[14]);
            }
            while cmdline[e] != 61
                invariant
                    a + 14 <= e < b,
                    b <= n,
                    n == cmdline@.len(),
                    cmdline@[a + 14] == 61,
                    forall|j: int| e < j < b ==> cmdline@[j] != 61,
                decreases e,
            {
                assert(e != a + 14);
                e = e - 1;
            }
            let v = e + 1;
            proof {
                assert(last_eq(cmdline@, a as int, b as int, e as int));
                assert(log_level_value_at(cmdline@, a as int, b as int, v as int));
                let rr = Some((v, b));
                assert(rr->Some_0.1 as int == b as int);
                assert(rr->Some_0.0 as int == v as int);
                assert(exists|a3: int| #![trigger log_level_value_at(cmdline@, a3, rr->Some_0.1 as int, rr->Some_0.0 as int)]
                    log_level_value_at(cmdline@, a3, rr->Some_0.1 as int, rr->Some_0.0 as int));
            }
            return Some((v, b));
        }
        proof {
            assert forall|a2: int, b2: int| #![trigger is_piece(cmdline@, a2, b2)] is_piece(cmdline@, a2, b2) && a2 < b + 1 implies !is_key_piece(cmdline@, a2, b2) by {
                if a2 >= a && a2 < b + 1 {
                    if a2 > a {
                        assert(cmdline@[a2 - 1] == 32);
                    }
                    assert(a2 == a);
                    if b2 < b {
                        assert(cmdline@[b2] == 32);
                    } else if b2 > b {
                        assert(cmdline@[b as int] == 32);
                    }
                }
            }
        }
        if b == n {
            proof {
                assert forall|a2: int, b2: int| #![trigger is_piece(cmdline@, a2, b2)] is_piece(cmdline@, a2, b2) implies !is_key_piece(cmdline@, a2, b2) by {
                    assert(a2 < b + 1);
                }
            }
            return None;
        }
        a = b + 1;
    }
}

/// `s` is the lower-case letters of `word`, each in lower or upper case.
pub open spec fn spells_ignoring_case(s: Seq<u8>, word: Seq<u8>) -> bool {
    &&& s.len() == word.len()
    &&& forall|i: int| 0 <= i < s.len() ==> #[trigger] s[i] == word[i] || s[i] + 32 == word[i]
}

/// Whether `s` spells `word`, a lower-case word, in a mix of cases.
proof fn lemma_spells_matches(s: Seq<u8>, word: Seq<u8>)
    requires
        spells_ignoring_case(s, word),
        forall|i: int| 0 <= i < word.len() ==> 97 <= #[trigger] word[i] <= 122,
    ensures
        matches_word(s, word),
{
    assert forall|i: int| 0 <= i < s.len() implies ascii_lower(#[trigger] s[i]) == word[i] by {
        assert(s[i] == word[i] || s[i] + 32 == word[i]);
    }
}

/// Each level name, written in any mix of cases, parses to its filter; a
/// name that is not known gives `Info`; and a known result comes from one
/// of the names.
pub proof fn lemma_parse_level_names(s: Seq<u8>)
    ensures
        spells_ignoring_case(s, seq![116u8, 114, 97, 99, 101]) ==> parsed_level(s) == (LogLevelFilter::Trace, true),
        spells_ignoring_case(s, seq![100u8, 101, 98, 117, 103]) ==> parsed_level(s) == (LogLevelFilter::Debug, true),
        spells_ignoring_case(s, seq![105u8, 110, 102, 111]) ==> parsed_level(s) == (LogLevelFilter::Info, true),
        spells_ignoring_case(s, seq![119u8, 97, 114, 110]) ==> parsed_level(s) == (LogLevelFilter::Warn, true),
        spells_ignoring_case(s, seq![101u8, 114, 114, 111, 114]) ==> parsed_level(s) == (LogLevelFilter::Error, true),
        spells_ignoring_case(s, seq![111u8, 102, 102]) ==> parsed_level(s) == (LogLevelFilter::Off, true),
        !parsed_level(s).1 ==> parsed_level(s).0 == LogLevelFilter::Info,
        parsed_level(s).1 ==> {
            ||| spells_ignoring_case(s, seq![116u8, 114, 97, 99, 101])
            ||| spells_ignoring_case(s, seq![100u8, 101, 98, 117, 103])
            ||| spells_ignoring_case(s, seq![105u8, 110, 102, 111])
            ||| spells_ignoring_case(s, seq![119u8, 97, 114, 110])
            ||| spells_ignoring_case(s, seq![101u8, 114, 114, 111, 114])
            ||| spells_ignoring_case(s, seq![111u8, 102, 102])
        },
{
    let tr = seq![116u8, 114, 97, 99, 101];
    let de = seq![100u8, 101, 98, 117, 103];
    let inf = seq![105u8, 110, 102, 111];
    let wa = seq![119u8, 97, 114, 110];
    let er = seq![101u8, 114, 114, 111, 114];
    let of = seq![111u8, 102, 102];
    assert(tr[0] == 116 && tr[1] == 114 && tr[2] == 97 && tr[3] == 99 && tr[4] == 101);
    assert(de[0] == 100 && de[1] == 101 && de[2] == 98 && de[3] == 117 && de[4] == 103);
    assert(inf[0] == 105 && inf[1] == 110 && inf[2] == 102 && inf[3] == 111);
    assert(wa[0] == 119 && wa[1] == 97 && wa[2] == 114 && wa[3] == 110);
    assert(er[0] == 101 && er[1] == 114 && er[2] == 114 && er[3] == 111 && er[4] == 114);
    assert(of[0] == 111 && of[1] == 102 && of[2] == 102);
    if spells_ignoring_case(s, tr) {
        lemma_spells_matches(s, tr);
    }
    if spells_ignoring_case(s, de) {
        lemma_spells_matches(s, de);
        assert(s[0] == 100 || s[0] + 32 == 100);
        assert(!matches_word(s, tr));
    }
    if spells_ignoring_case(s, inf) {
        lemma_spells_matches(s, inf);
    }
    if spells_ignoring_case(s, wa) {
        lemma_spells_matches(s, wa);
        assert(s[0] == 119 || s[0] + 32 == 119);
        assert(!matches_word(s, inf));
    }
    if spells_ignoring_case(s, er) {
        lemma_spells_matches(s, er);
        assert(s[0] == 101 || s[0] + 32 == 101);
        assert(!matches_word(s, tr));
        assert(!matches_word(s, de));
    }
    if spells_ignoring_case(s, of) {
        lemma_spells_matches(s, of);
    }
    lemma_matches_spells(s, tr);
    lemma_matches_spells(s, de);
    lemma_matches_spells(s, inf);
    lemma_matches_spells(s, wa);
    lemma_matches_spells(s, er);
    lemma_matches_spells(s, of);
}

/// Spelling a lower-case word up to case means spelling each of its letters
/// in lower or upper case.
proof fn lemma_matches_spells(s: Seq<u8>, word: Seq<u8>)
    requires
        forall|i: int| 0 <= i < word.len() ==> 97 <= #[trigger] word[i] <= 122,
    ensures
        matches_word(s, word) ==> spells_ignoring_case(s, word),
{
    if matches_word(s, word) {
        assert forall|i: int| 0 <= i < s.len() implies #[trigger] s[i] == word[i] || s[i] + 32 == word[i] by {
            assert(ascii_lower(s[i]) == word[i]);
        }
    }
}

/// The parse ignores case: two strings whose bytes agree once lower-cased
/// name the same filter, with the same answer on whether they name one.
pub proof fn lemma_parse_ignores_case(s: Seq<u8>, t: Seq<u8>)
    requires
        s.len() == t.len(),
        forall|i: int| 0 <= i < s.len() ==> (if 65 <= #[trigger] s[i] <= 90 { s[i] + 32 } else { s[i] as int })
            == (if 65 <= t[i] <= 90 { t[i] + 32 } else { t[i] as int }),
    ensures
        parsed_level(s) == parsed_level(t),
{
    assert forall|w: Seq<u8>| matches_word(s, w) == #[trigger] matches_word(t, w) by {
        if s.len() == w.len() {
            assert forall|i: int| 0 <= i < s.len() implies ascii_lower(#[trigger] s[i]) == ascii_lower(t[i]) by {
                assert((if 65 <= s[i] <= 90 { s[i] + 32 } else { s[i] as int }) == (if 65 <= t[i] <= 90 { t[i] + 32 } else { t[i] as int }));
            }
            if matches_word(s, w) {
                assert forall|i: int| 0 <= i < t.len() implies ascii_lower(#[trigger] t[i]) == w[i] by {
                    assert(ascii_lower(s[i]) == w[i]);
                }
            }
            if matches_word(t, w) {
                assert forall|i: int| 0 <= i < s.len() implies ascii_lower(#[trigger] s[i]) == w[i] by {
                    assert(ascii_lower(t[i]) == w[i]);
                }
            }
        }
    }
}

/// Every level is enabled by its own filter and by every more verbose one,
/// and by no less verbose one: the order is `Error` < `Warn` < `Info` <
/// `Debug` < `Trace`, and `Off` enables nothing.
pub proof fn lemma_enabled_order(level: LogLevel, max_level: LogLevelFilter)
    ensures
        (level_rank(level) <= filter_rank(max_level)) == match max_level {
            LogLevelFilter::Off => false,
            LogLevelFilter::Error => level == LogLevel::Error,
            LogLevelFilter::Warn => level == LogLevel::Error || level == LogLevel::Warn,
            LogLevelFilter::Info => !(level == LogLevel::Debug || level == LogLevel::Trace),
            LogLevelFilter::Debug => level != LogLevel::Trace,
            LogLevelFilter::Trace => true,
        },
{
}

/// Enabling is monotone in the filter: a level that a filter enables, every
/// more verbose filter enables too.
pub proof fn lemma_enabled_monotone(level: LogLevel, f: LogLevelFilter, g: LogLevelFilter)
    requires
        level_rank(level) <= filter_rank(f),
        filter_rank(f) <= filter_rank(g),
    ensures
        level_rank(level) <= filter_rank(g),
{
}

/// Entering and then exiting a span leaves the indentation where it was
/// (below the largest level, where entering saturates).
pub proof fn lemma_enter_exit_restores(indent: u64)
    requires
        indent < u64::MAX,
    ensures
        ({
            let entered: u64 = if indent == u64::MAX { u64::MAX } else { (indent + 1) as u64 };
            let exited: u64 = if entered == 0 { 0 } else { (entered - 1) as u64 };
            exited == indent
        }),
{
}

} // verus!
