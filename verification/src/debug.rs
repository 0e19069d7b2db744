use std::fmt::Debug;
use vstd::prelude::*;
use vstd::string::*;

verus! {

/// One recorded entry of the debug log.
#[derive(Debug)]
pub struct LogEntry<T: Debug> {
    pub entry: T,
}

/// An append-only debug log. Each value pushed is kept as its pretty-printed
/// `Debug` text, in the order of the pushes.
#[derive(Debug)]
pub struct Logger {
    pub log: Vec<LogEntry<String>>,
}

/// Pretty-prints `val` with its `Debug` implementation (`{:#?}`).
/// Nothing is stated of the text: it is whatever the value's `Debug` impl writes.
#[verifier::external_body]
fn pretty_debug<T: Debug>(val: &T) -> String {
    format!("{:#?}", val)
}

/// The text that `Debug` (`{:#?}`) writes for a `String` holding `s`: the
/// string quoted, its special characters escaped.
pub uninterp spec fn debug_text(s: Seq<char>) -> Seq<char>;

/// `format!("{:#?}", s)` for a `String`: the name `debug_text` of its
/// contents. Only that the text depends on the contents alone is claimed.
#[verifier::external_body]
fn string_debug(s: &String) -> (text: String)
    ensures
        text@ == debug_text(s@),
{
    format!("{:#?}", s)
}

/// The text of a log: each entry followed by a line break.
pub open spec fn log_text(entries: Seq<LogEntry<String>>) -> Seq<char>
    decreases entries.len(),
{
    if entries.len() == 0 {
        Seq::empty()
    } else {
        log_text(entries.drop_last()) + entries.last().entry@ + seq!['\n']
    }
}

impl Default for Logger {
    /// An empty log.
    fn default() -> (logger: Logger)
        ensures
            logger.log@.len() == 0,
    {
        Logger { log: Vec::new() }
    }
}

impl Logger {
    /// Appends the pretty-printed form of `val` at the end of the log; what
    /// was logged before stays as it was.
    pub fn push<T: Debug + 'static>(&mut self, val: T)
        ensures
            final(self).log@.len() == old(self).log@.len() + 1,
            final(self).log@.subrange(0, old(self).log@.len() as int) == old(self).log@,
    {
        let text = pretty_debug(&val);
        self.log.push(LogEntry { entry: text });
    }

    /// Appends a string to the log, as `push` does: its entry is the
    /// string's `Debug` text.
    pub fn push_string(&mut self, val: String)
        ensures
            appended(old(self).log@, final(self).log@, 1),
            final(self).log@.last().entry@ == debug_text(val@),
    {
        let text = string_debug(&val);
        let ghost before = self.log@;
        self.log.push(LogEntry { entry: text });
        assert(self.log@.subrange(0, before.len() as int) =~= before);
    }

    /// The whole log as text: every entry in order, each followed by a line break.
    pub fn text(&self) -> (out: String)
        ensures
            out@ == log_text(self.log@),
    {
        let mut out = String::new();
        let mut i: usize = 0;
        while i < self.log.len()
            invariant
                i <= self.log@.len(),
                out@ == log_text(self.log@.subrange(0, i as int)),
            decreases self.log@.len() - i,
        {
            let line_break = "\n";
            proof {
                reveal_strlit("\n");
            }
            out.append(self.log[i].entry.as_str());
            out.append(line_break);
            assert(self.log@.subrange(0, i + 1).drop_last() == self.log@.subrange(0, i as int));
            i = i + 1;
        }
        assert(self.log@.subrange(0, self.log@.len() as int) == self.log@);
        out
    }
}

/// The digits of `n` in base ten, most significant first.
pub open spec fn digits(n: nat) -> Seq<char>
    decreases n,
{
    if n < 10 {
        seq![(48 + n) as char]
    } else {
        digits(n / 10).push((48 + n % 10) as char)
    }
}

/// An integer written in base ten, with a leading `-` when negative.
pub open spec fn decimal_text(v: int) -> Seq<char> {
    if v < 0 {
        seq!['-'] + digits((-v) as nat)
    } else {
        digits(v as nat)
    }
}

/// `format!("{}{}", label, value)`: the label followed by the value written
/// in base ten, as `Display` writes integers.
#[verifier::external_body]
pub(crate) fn labelled(label: &str, value: i64) -> (text: String)
    ensures
        text@ == label@ + decimal_text(value as int),
{
    format!("{}{}", label, value)
}

/// `new` is `old` with `k` entries appended after it.
pub open spec fn appended(old: Seq<LogEntry<String>>, new: Seq<LogEntry<String>>, k: int) -> bool {
    &&& new.len() == old.len() + k
    &&& new.subrange(0, old.len() as int) == old
}

/// Appending in two steps is appending the two counts.
pub proof fn lemma_appended_trans(
    a: Seq<LogEntry<String>>,
    b: Seq<LogEntry<String>>,
    c: Seq<LogEntry<String>>,
    k1: int,
    k2: int,
)
    requires
        appended(a, b, k1),
        appended(b, c, k2),
        k1 >= 0,
        k2 >= 0,
    ensures
        appended(a, c, k1 + k2),
{
    assert(c.subrange(0, a.len() as int) =~= c.subrange(0, b.len() as int).subrange(0, a.len() as int));
}

/// Nothing appended leaves the log as it was.
pub proof fn lemma_appended_none(a: Seq<LogEntry<String>>)
    ensures
        appended(a, a, 0),
{
    assert(a.subrange(0, a.len() as int) =~= a);
}

} // verus!
