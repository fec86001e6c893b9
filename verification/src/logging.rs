//! Turning the library's log output and panics into the lines the game
//! front end prints: log lines lose their colour codes and are sorted into
//! plain and error output by their level, and a panic becomes a framed
//! report.

use vstd::prelude::*;
use crate::text::{
    decimal,
    find_char,
    is_white,
    lead_white,
    lemma_find_char_bound,
    lemma_lead_white_bound,
    push_decimal,
    split_once_char,
    str_eq,
    trim,
    trimmed,
    white_char,
};

verus! {

/// The number of characters that `s` starts with before its first white
/// space.
pub open spec fn word_len(s: Seq<char>) -> nat
    decreases s.len(),
{
    if s.len() > 0 && !is_white(s[0]) {
        1 + word_len(s.drop_first())
    } else {
        0
    }
}

pub proof fn lemma_word_len_bound(s: Seq<char>)
    ensures
        word_len(s) <= s.len(),
        s.len() > 0 && !is_white(s[0]) ==> word_len(s) >= 1,
    decreases s.len(),
{
    if s.len() > 0 && !is_white(s[0]) {
        lemma_word_len_bound(s.drop_first());
    }
}

/// The words of `s`: its maximal runs of characters that are not white
/// space, in order (what `str::split_whitespace` yields).
pub open spec fn words(s: Seq<char>) -> Seq<Seq<char>>
    decreases s.len(),
{
    let t = s.subrange(lead_white(s) as int, s.len() as int);
    if t.len() == 0 {
        Seq::empty()
    } else {
        proof {
            lemma_lead_white_bound(s);
            lemma_word_len_bound(t);
        }
        seq![t.subrange(0, word_len(t) as int)] + words(t.subrange(word_len(t) as int, t.len() as int))
    }
}

/// `s` from its first character that is not white space.
fn skip_white(s: &str) -> (r: &str)
    ensures
        r@ == s@.subrange(lead_white(s@) as int, s@.len() as int),
{
    let n = s.unicode_len();
    let mut i: usize = 0;
    proof {
        assert(s@.subrange(0, n as int) =~= s@);
    }
    while i < n && white_char(s.get_char(i))
        invariant
            i <= n,
            n == s@.len(),
            lead_white(s@) == i + lead_white(s@.subrange(i as int, n as int)),
        decreases n - i,
    {
        proof {
            let t = s@.subrange(i as int, n as int);
            assert(t.drop_first() =~= s@.subrange(i + 1, n as int));
        }
        i = i + 1;
    }
    proof {
        let t = s@.subrange(i as int, n as int);
        if i < n {
            assert(t[0] == s@[i as int]);
        }
    }
    s.substring_char(i, n)
}

/// The length of the word that `s` starts with.
fn first_word_len(s: &str) -> (k: usize)
    ensures
        k == word_len(s@),
{
    let n = s.unicode_len();
    let mut i: usize = 0;
    proof {
        assert(s@.subrange(0, n as int) =~= s@);
    }
    while i < n && !white_char(s.get_char(i))
        invariant
            i <= n,
            n == s@.len(),
            word_len(s@) == i + word_len(s@.subrange(i as int, n as int)),
        decreases n - i,
    {
        proof {
            let t = s@.subrange(i as int, n as int);
            assert(t.drop_first() =~= s@.subrange(i + 1, n as int));
        }
        i = i + 1;
    }
    proof {
        let t = s@.subrange(i as int, n as int);
        if i < n {
            assert(t[0] == s@[i as int]);
        }
    }
    i
}

/// Word number `n` (from zero) of `s`, if it has that many.
pub fn nth_word(s: &str, n: usize) -> (r: Option<&str>)
    ensures
        match r {
            Some(w) => n < words(s@).len() && w@ == words(s@)[n as int],
            None => n >= words(s@).len(),
        },
    decreases s@.len(),
{
    proof {
        lemma_lead_white_bound(s@);
    }
    let t = skip_white(s);
    let m = t.unicode_len();
    if m == 0 {
        return None;
    }
    let k = first_word_len(t);
    proof {
        lemma_word_len_bound(t@);
    }
    if n == 0 {
        Some(t.substring_char(0, k))
    } else {
        let rest = t.substring_char(k, m);
        let r = nth_word(rest, n - 1);
        proof {
            let w = seq![t@.subrange(0, k as int)];
            assert(words(s@) == w + words(rest@));
            match r {
                Some(x) => {
                    assert(words(s@)[n as int] == words(rest@)[n - 1]);
                },
                None => {},
            }
        }
        r
    }
}

/// Whether a log level marks a line for the error output.
pub open spec fn error_level(w: Seq<char>) -> bool {
    w == "WARN"@ || w == "ERROR"@ || w == "DEBUG"@
}

/// What `strip_ansi_escapes::strip_str` leaves of a text.
pub uninterp spec fn ansi_stripped(s: Seq<char>) -> Seq<char>;

/// `strip_ansi_escapes::strip_str`: `s` without its terminal escape
/// sequences. The contract names the result and says nothing more of it.
#[verifier::external_body]
fn strip_ansi(s: &str) -> (r: String)
    ensures
        r@ == ansi_stripped(s@),
{
    strip_ansi_escapes::strip_str(s)
}

/// What `String::from_utf8_lossy` makes of some bytes.
pub uninterp spec fn lossy_text(b: Seq<u8>) -> Seq<char>;

/// `String::from_utf8_lossy`: the bytes read as UTF-8, with every invalid
/// sequence replaced by U+FFFD. The contract names the result and says
/// nothing more of it.
#[verifier::external_body]
fn lossy(b: &[u8]) -> (r: String)
    ensures
        r@ == lossy_text(b@),
{
    String::from_utf8_lossy(b).to_string()
}

/// The number of bytes the UTF-8 encoding of `c` takes.
pub open spec fn char_utf8_len(c: char) -> nat {
    let u = c as u32;
    if u < 0x80 {
        1
    } else if u < 0x800 {
        2
    } else if u < 0x10000 {
        3
    } else {
        4
    }
}

/// The number of bytes of the UTF-8 encoding of `s`.
pub open spec fn utf8_len(s: Seq<char>) -> nat
    decreases s.len(),
{
    if s.len() == 0 {
        0
    } else {
        utf8_len(s.drop_last()) + char_utf8_len(s.last())
    }
}

/// See `utf8_len`; `None` where the count does not fit in a `usize`.
pub fn utf8_len_of(s: &str) -> (r: Option<usize>)
    ensures
        match r {
            Some(k) => k == utf8_len(s@),
            None => utf8_len(s@) > usize::MAX,
        },
{
    let n = s.unicode_len();
    let mut total: usize = 0;
    let mut i: usize = 0;
    while i < n
        invariant
            i <= n,
            n == s@.len(),
            total == utf8_len(s@.subrange(0, i as int)),
        decreases n - i,
    {
        let c = s.get_char(i);
        let u = c as u32;
        let w: usize = if u < 0x80 {
            1
        } else if u < 0x800 {
            2
        } else if u < 0x10000 {
            3
        } else {
            4
        };
        proof {
            assert(s@.subrange(0, i + 1).drop_last() =~= s@.subrange(0, i as int));
            assert(s@.subrange(0, i + 1).last() == c);
            lemma_utf8_len_prefix_mono(s@, i + 1, n as int);
        }
        if total > usize::MAX - w {
            proof {
                assert(utf8_len(s@.subrange(0, i + 1)) == total + w);
                assert(s@.subrange(0, n as int) =~= s@);
            }
            return None;
        }
        total = total + w;
        i = i + 1;
    }
    proof {
        assert(s@.subrange(0, n as int) =~= s@);
    }
    Some(total)
}

proof fn lemma_utf8_len_prefix_mono(s: Seq<char>, i: int, j: int)
    requires
        0 <= i <= j <= s.len(),
    ensures
        utf8_len(s.subrange(0, i)) <= utf8_len(s.subrange(0, j)),
    decreases j - i,
{
    if i < j {
        lemma_utf8_len_prefix_mono(s, i, j - 1);
        assert(s.subrange(0, j).drop_last() =~= s.subrange(0, j - 1));
    }
}

/// A log record to hand to the front end: the text, and whether it goes
/// to the error output.
#[derive(Debug)]
pub struct LogLine {
    pub text: String,
    pub to_error: bool,
}

/// The text a log line is shown as: a crab, a space, and the record
/// without colour codes and surrounding white space.
pub open spec fn log_text(text: Seq<char>) -> Seq<char> {
    "\u{1f980} "@ + trimmed(ansi_stripped(text))
}

/// A record goes to the error output when its third word (after the crab
/// and the time) is a warning, error or debug level.
pub open spec fn log_to_error(shown: Seq<char>) -> bool {
    words(shown).len() > 2 && error_level(words(shown)[2])
}

/// The log line for a record `text`.
pub fn log_line(text: &str) -> (r: LogLine)
    ensures
        r.text@ == log_text(text@),
        r.to_error == log_to_error(r.text@),
{
    let stripped = strip_ansi(text);
    let mut shown = String::from_str("\u{1f980} ");
    shown.append(trim(stripped.as_str()));
    let to_error = match nth_word(shown.as_str(), 2) {
        Some(w) => str_eq(w, "WARN") || str_eq(w, "ERROR") || str_eq(w, "DEBUG"),
        None => false,
    };
    LogLine { text: shown, to_error }
}

/// Whether `s` holds the character `c`.
pub fn has_char(s: &str, c: char) -> (b: bool)
    ensures
        b == s@.contains(c),
{
    let n = s.unicode_len();
    let mut i: usize = 0;
    while i < n
        invariant
            i <= n,
            n == s@.len(),
            forall|k: int| 0 <= k < i ==> s@[k] != c,
        decreases n - i,
    {
        if s.get_char(i) == c {
            return true;
        }
        i = i + 1;
    }
    false
}

/// What the writer handed to the log subscriber does with the bytes of one
/// record: the line to show, or `None` where the shown text holds a NUL
/// character and cannot be passed on; and the count it reports as
/// written, the length of the record read as text.
pub fn log_write(buf: &[u8]) -> (r: (Option<LogLine>, usize))
    ensures
        match r.0 {
            Some(l) => !log_text(lossy_text(buf@)).contains('\0') && l.text@ == log_text(lossy_text(buf@))
                && l.to_error == log_to_error(l.text@) && r.1 == written_len(lossy_text(buf@)),
            None => log_text(lossy_text(buf@)).contains('\0') && r.1 == 0,
        },
{
    let text = lossy(buf);
    let line = log_line(text.as_str());
    if has_char(line.text.as_str(), '\0') {
        (None, 0)
    } else {
        let written = match utf8_len_of(text.as_str()) {
            Some(k) => k,
            None => usize::MAX,
        };
        (Some(line), written)
    }
}

/// The byte length of `s` in UTF-8, as a `usize` can hold it.
pub open spec fn written_len(s: Seq<char>) -> usize {
    if utf8_len(s) <= usize::MAX {
        utf8_len(s) as usize
    } else {
        usize::MAX
    }
}

/// A line without the carriage return that ended it.
pub open spec fn strip_cr(l: Seq<char>) -> Seq<char> {
    if l.len() > 0 && l.last() == '\r' {
        l.drop_last()
    } else {
        l
    }
}

/// The lines of `s` as `str::lines` yields them: split at each newline, a
/// carriage return before the newline dropped, and no empty line after a
/// final newline.
pub open spec fn lines(s: Seq<char>) -> Seq<Seq<char>>
    decreases s.len(),
{
    if s.len() == 0 {
        Seq::empty()
    } else {
        match find_char(s, '\n') {
            Some(k) => {
                proof {
                    lemma_find_char_bound(s, '\n');
                }
                seq![strip_cr(s.subrange(0, k as int))] + lines(s.subrange((k + 1) as int, s.len() as int))
            },
            None => seq![s],
        }
    }
}

/// Strings, by their characters.
pub open spec fn strings_view(v: Seq<String>) -> Seq<Seq<char>> {
    v.map_values(|x: String| x@)
}

/// See `strip_cr`.
fn strip_cr_of(l: &str) -> (r: &str)
    ensures
        r@ == strip_cr(l@),
{
    let n = l.unicode_len();
    if n > 0 && l.get_char(n - 1) == '\r' {
        proof {
            assert(l@.subrange(0, n - 1) =~= l@.drop_last());
        }
        l.substring_char(0, n - 1)
    } else {
        l
    }
}

/// See `lines`.
pub fn lines_of(s: &str) -> (r: Vec<String>)
    ensures
        strings_view(r@) == lines(s@),
    decreases s@.len(),
{
    let n = s.unicode_len();
    if n == 0 {
        let r: Vec<String> = Vec::new();
        proof {
            assert(strings_view(r@) =~= lines(s@));
        }
        return r;
    }
    proof {
        lemma_find_char_bound(s@, '\n');
    }
    match split_once_char(s, '\n') {
        Some((a, b)) => {
            let first = strip_cr_of(a).to_owned();
            let rest = lines_of(b);
            let mut r: Vec<String> = Vec::new();
            r.push(first);
            let m = rest.len();
            for i in 0..m
                invariant
                    m == rest@.len(),
                    r@.len() == i + 1,
                    r@[0]@ == strip_cr(a@),
                    forall|j: int| 0 <= j < i ==> r@[j + 1]@ == (#[trigger] rest@[j])@,
            {
                r.push(rest[i].clone());
            }
            proof {
                assert(strings_view(r@) =~= seq![strip_cr(a@)] + strings_view(rest@));
            }
            r
        },
        None => {
            let mut r: Vec<String> = Vec::new();
            r.push(s.to_owned());
            proof {
                assert(strings_view(r@) =~= seq![s@]);
            }
            r
        },
    }
}

/// The lines `ls`, each indented by four spaces, joined by newlines.
pub open spec fn indented(ls: Seq<Seq<char>>) -> Seq<char>
    decreases ls.len(),
{
    if ls.len() == 0 {
        Seq::empty()
    } else if ls.len() == 1 {
        "    "@ + ls[0]
    } else {
        indented(ls.drop_last()) + "\n"@ + "    "@ + ls.last()
    }
}

/// The longest UTF-8 length among `ls`, or `None` without lines.
pub open spec fn longest(ls: Seq<Seq<char>>) -> Option<nat>
    decreases ls.len(),
{
    if ls.len() == 0 {
        None
    } else {
        let l = utf8_len(ls.last());
        match longest(ls.drop_last()) {
            Some(m) => Some(if m >= l { m } else { l }),
            None => Some(l),
        }
    }
}

/// Whether `pat` occurs in `s`.
pub open spec fn has_sub(s: Seq<char>, pat: Seq<char>) -> bool {
    exists|i: int| 0 <= i && i + pat.len() <= s.len() && #[trigger] s.subrange(i, i + pat.len()) == pat
}

/// See `has_sub`.
pub fn contains_str(s: &str, pat: &str) -> (b: bool)
    ensures
        b == has_sub(s@, pat@),
{
    let n = s.unicode_len();
    let k = pat.unicode_len();
    if k > n {
        return false;
    }
    if k == 0 {
        proof {
            assert(s@.subrange(0int, 0int + pat@.len()) =~= pat@);
        }
        return true;
    }
    let mut i: usize = 0;
    while i <= n - k
        invariant
            1 <= k <= n,
            i <= n - k + 1,
            n == s@.len(),
            k == pat@.len(),
            forall|j: int| 0 <= j < i ==> #[trigger] s@.subrange(j, j + k) != pat@,
        decreases n - k + 1 - i,
    {
        if str_eq(s.substring_char(i, i + k), pat) {
            return true;
        }
        i = i + 1;
    }
    false
}

/// Where the panic happened, as the report names it.
pub open spec fn location_text(location: Option<(Seq<char>, u32, u32)>) -> Seq<char> {
    match location {
        Some((file, line, column)) => file + ":"@ + decimal(line as nat) + ":"@ + decimal(column as nat),
        None => "unknown location"@,
    }
}

/// The panic's message, indented.
pub open spec fn payload_text(payload: Option<Seq<char>>) -> Seq<char> {
    indented(
        lines(
            match payload {
                Some(p) => p,
                None => "unknown error"@,
            },
        ),
    )
}

/// The width of the rule above a report: the longest line of the message,
/// 4 without lines, at most 60.
pub open spec fn rule_width(text: Seq<char>) -> nat {
    let w = match longest(lines(text)) {
        Some(m) => m,
        None => 4,
    };
    if w <= 60 {
        w
    } else {
        60
    }
}

/// The report of a panic in thread `name` (`<unnamed>` without one) with id
/// text `id`, at `location`, with message `payload`: a rule of `=`, the
/// thread, the place, the indented message, and a hint about backtraces
/// unless the message holds one.
pub open spec fn panic_report_text(
    name: Option<Seq<char>>,
    id: Seq<char>,
    location: Option<(Seq<char>, u32, u32)>,
    payload: Option<Seq<char>>,
) -> Seq<char> {
    let thread = "'"@ + (match name {
        Some(n) => n,
        None => "<unnamed>"@,
    }) + "'(id: "@ + id + ")"@;
    let p = payload_text(payload);
    Seq::new(rule_width(p), |i: int| '=') + "\n"@ + ("thread "@ + thread + " panicked"@) + "\n"@ + (
    "crashed at "@ + location_text(location) + ":"@) + "\n"@ + p + (if has_sub(
        p,
        "Stack backtrace:"@,
    ) {
        Seq::empty()
    } else {
        "\nnote: run with `RUST_BACKTRACE=1` environment variable to display a backtrace"@
    })
}

/// See `indented`.
fn indent_lines(ls: &Vec<String>) -> (r: String)
    ensures
        r@ == indented(strings_view(ls@)),
{
    let n = ls.len();
    let mut r = String::new();
    let ghost v = strings_view(ls@);
    for i in 0..n
        invariant
            n == ls@.len(),
            v == strings_view(ls@),
            r@ == indented(v.take(i as int)),
    {
        proof {
            assert(v.take(i + 1).drop_last() =~= v.take(i as int));
        }
        if i > 0 {
            r.append("\n");
        }
        r.append("    ");
        r.append(ls[i].as_str());
        proof {
            if i == 0 {
                assert(r@ =~= indented(v.take(1)));
            }
        }
    }
    proof {
        assert(v.take(n as int) =~= v);
    }
    r
}

/// `m`, or the largest `usize` where it is larger.
pub open spec fn capped(m: nat) -> nat {
    if m <= usize::MAX {
        m
    } else {
        usize::MAX as nat
    }
}

/// See `rule_width`.
fn rule_width_of(text: &str) -> (w: usize)
    ensures
        w == rule_width(text@),
{
    let ls = lines_of(text);
    let ghost v = strings_view(ls@);
    let n = ls.len();
    let mut best: Option<usize> = None;
    for i in 0..n
        invariant
            n == ls@.len(),
            v == strings_view(ls@),
            match best {
                Some(b) => longest(v.take(i as int)) is Some && capped(longest(v.take(i as int))->0) == b,
                None => longest(v.take(i as int)) is None,
            },
    {
        proof {
            assert(v.take(i + 1).drop_last() =~= v.take(i as int));
            assert(v.take(i + 1).last() == v[i as int]);
        }
        let l = match utf8_len_of(ls[i].as_str()) {
            Some(k) => k,
            None => usize::MAX,
        };
        best = match best {
            Some(b) => Some(if b >= l { b } else { l }),
            None => Some(l),
        };
    }
    proof {
        assert(v.take(n as int) =~= v);
    }
    let w = match best {
        Some(b) => b,
        None => 4,
    };
    if w <= 60 {
        w
    } else {
        60
    }
}

/// See `panic_report_text`.
pub fn panic_report(name: Option<&str>, id: &str, location: Option<(&str, u32, u32)>, payload: Option<&str>) -> (r:
    String)
    ensures
        r@ == panic_report_text(
            match name {
                Some(n) => Some(n@),
                None => None,
            },
            id@,
            match location {
                Some((f, l, c)) => Some((f@, l, c)),
                None => None,
            },
            match payload {
                Some(p) => Some(p@),
                None => None,
            },
        ),
{
    let mut thread = String::from_str("'");
    match name {
        Some(n) => thread.append(n),
        None => thread.append("<unnamed>"),
    }
    thread.append("'(id: ");
    thread.append(id);
    thread.append(")");
    let mut loc = String::from_str("crashed at ");
    match location {
        Some((f, l, c)) => {
            let mut t = String::from_str(f);
            t.append(":");
            push_decimal(&mut t, l as u64);
            t.append(":");
            push_decimal(&mut t, c as u64);
            loc.append(t.as_str());
        },
        None => loc.append("unknown location"),
    }
    loc.append(":");
    let ls = match payload {
        Some(p) => lines_of(p),
        None => lines_of("unknown error"),
    };
    let p = indent_lines(&ls);
    let width = rule_width_of(p.as_str());
    let mut r = String::new();
    let mut i: usize = 0;
    while i < width
        invariant
            i <= width,
            r@ == Seq::new(i as nat, |j: int| '='),
        decreases width - i,
    {
        r.append("=");
        proof {
            reveal_strlit("=");
            assert(r@ =~= Seq::new((i + 1) as nat, |j: int| '='));
        }
        i = i + 1;
    }
    r.append("\n");
    let mut top = String::from_str("thread ");
    top.append(thread.as_str());
    top.append(" panicked");
    r.append(top.as_str());
    r.append("\n");
    r.append(loc.as_str());
    r.append("\n");
    r.append(p.as_str());
    if !contains_str(p.as_str(), "Stack backtrace:") {
        r.append("\nnote: run with `RUST_BACKTRACE=1` environment variable to display a backtrace");
    } else {
        proof {
            assert(r@ =~= r@ + Seq::<char>::empty());
        }
    }
    r
}

} // verus!
