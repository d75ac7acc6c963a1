//! The two logs: what just happened, and what you are made of.
//!
//! Both are sim-side state because both are part of the world, not of any
//! particular renderer. The message log word-wraps at the width of a
//! 64-column console so that line counts match what such a frontend shows; a
//! frontend free to lay out differently can ignore the wrapping and re-wrap
//! the text itself.

use vstd::prelude::*;
use vstd::string::*;

verus! {

/// Columns the message log wraps to: a 64-wide console with a one-cell
/// margin on each side.
pub const WRAP_WIDTH: usize = 62;

/// Lines a fixed panel shows at once. More than this is kept so a frontend
/// can scroll back.
pub const VISIBLE_LINES: usize = 9;

/// Wrapped lines retained before the oldest is dropped.
pub const CAPACITY: usize = 256;

/// Entries the sidebar fits on one page.
pub const PAGE_LINES: usize = 55;

/// The words of `t`, split at every space: `k` spaces give `k + 1` words,
/// some of them possibly empty.
pub open spec fn split_spaces(t: Seq<char>) -> Seq<Seq<char>>
    decreases t.len(),
{
    if t.len() == 0 {
        seq![Seq::empty()]
    } else {
        let rest = split_spaces(t.drop_last());
        if t.last() == ' ' {
            rest.push(Seq::empty())
        } else {
            rest.update(rest.len() - 1, rest.last().push(t.last()))
        }
    }
}

/// Cut `width`-sized pieces off the front of a word that does not fit on a
/// line of its own, each on a line of its own, after flushing the line in
/// progress. Returns the lines so far, the line in progress and what is left
/// of the word.
pub open spec fn hard_split(out: Seq<Seq<char>>, line: Seq<char>, word: Seq<char>, width: nat) -> (
    Seq<Seq<char>>,
    Seq<char>,
    Seq<char>,
)
    decreases word.len(),
{
    if width > 0 && word.len() > width {
        let out1 = if line.len() > 0 { out.push(line) } else { out };
        hard_split(out1.push(word.take(width as int)), Seq::empty(), word.skip(width as int), width)
    } else {
        (out, line, word)
    }
}

/// Place one word greedily: on the line in progress, after a space, if it
/// fits there; otherwise at the start of a fresh line.
pub open spec fn place_word(out: Seq<Seq<char>>, line: Seq<char>, word: Seq<char>, width: nat) -> (Seq<Seq<char>>, Seq<char>) {
    let (o1, l1, w1) = hard_split(out, line, word, width);
    let extra = (if l1.len() > 0 { 1int } else { 0int }) + w1.len();
    let (o2, l2) = if l1.len() + extra > width { (o1.push(l1), Seq::<char>::empty()) } else { (o1, l1) };
    let l3 = if l2.len() > 0 { l2.push(' ') } else { l2 };
    (o2, l3 + w1)
}

/// Place every word in turn.
pub open spec fn place_words(words: Seq<Seq<char>>, width: nat) -> (Seq<Seq<char>>, Seq<char>)
    decreases words.len(),
{
    if words.len() == 0 {
        (Seq::empty(), Seq::empty())
    } else {
        let (o, l) = place_words(words.drop_last(), width);
        place_word(o, l, words.last(), width)
    }
}

/// The words of `t` that hold something: runs of spaces, and spaces at
/// either end, separate words but make none.
pub open spec fn words_of(t: Seq<char>) -> Seq<Seq<char>> {
    split_spaces(t).filter(|w: Seq<char>| w.len() > 0)
}

/// Greedy word wrap of `text` to `width` columns. Over-long words are split
/// across lines; no line starts or ends with a space; an empty message, or
/// one of spaces only, is one empty line.
pub open spec fn wrap_spec(text: Seq<char>, width: nat) -> Seq<Seq<char>> {
    let (o, l) = place_words(words_of(text), width);
    if l.len() > 0 || o.len() == 0 {
        o.push(l)
    } else {
        o
    }
}

/// Every line of `lines` is at most `width` characters.
pub open spec fn all_fit(lines: Seq<Seq<char>>, width: nat) -> bool {
    forall|i: int| 0 <= i < lines.len() ==> (#[trigger] lines[i]).len() <= width
}

/// Calls `String::from_iter` on the characters, which std documents as
/// collecting them, in order, into a new string.
#[verifier::external_body]
fn string_from_chars(chars: &Vec<char>) -> (s: String)
    ensures
        s@ == chars@,
{
    String::from_iter(chars.iter())
}

/// Calls `join` with an empty separator on a slice of string pieces, which
/// std documents as joining them, in order, with the separator between.
#[verifier::external_body]
pub(crate) fn join_text(parts: &[&str]) -> (s: String)
    ensures
        s@ == parts@.map_values(|p: &str| p@).flatten(),
{
    parts.join("")
}

/// The character for one decimal digit.
pub open spec fn digit_char(d: nat) -> char {
    if d == 0 {
        '0'
    } else if d == 1 {
        '1'
    } else if d == 2 {
        '2'
    } else if d == 3 {
        '3'
    } else if d == 4 {
        '4'
    } else if d == 5 {
        '5'
    } else if d == 6 {
        '6'
    } else if d == 7 {
        '7'
    } else if d == 8 {
        '8'
    } else {
        '9'
    }
}

/// A number written in decimal: its digits, most significant first, with no
/// leading zero (zero itself is the one digit `0`).
pub open spec fn decimal(n: nat) -> Seq<char>
    decreases n,
{
    if n < 10 {
        seq![digit_char(n)]
    } else {
        decimal(n / 10).push(digit_char(n % 10))
    }
}

/// A signed number written in decimal: a minus sign before the digits of
/// its size when it is negative.
pub open spec fn signed_decimal(n: int) -> Seq<char> {
    if n < 0 {
        seq!['-'] + decimal((-n) as nat)
    } else {
        decimal(n as nat)
    }
}

/// The character for the digit `d`.
fn digit(d: u64) -> (c: char)
    requires
        d < 10,
    ensures
        c == digit_char(d as nat),
{
    if d == 0 {
        '0'
    } else if d == 1 {
        '1'
    } else if d == 2 {
        '2'
    } else if d == 3 {
        '3'
    } else if d == 4 {
        '4'
    } else if d == 5 {
        '5'
    } else if d == 6 {
        '6'
    } else if d == 7 {
        '7'
    } else if d == 8 {
        '8'
    } else {
        '9'
    }
}

/// The decimal digits of `n`, appended to `out`.
fn push_digits(out: &mut Vec<char>, n: u64)
    ensures
        final(out)@ == old(out)@ + decimal(n as nat),
{
    let mut m: u64 = n / 10;
    let mut rev: Vec<char> = Vec::new();
    rev.push(digit(n % 10));
    proof {
        if n >= 10 {
            assert(decimal(n as nat) == decimal(m as nat) + seq![digit_char((n % 10) as nat)]);
        }
        assert(rev@.reverse() =~= seq![digit_char((n % 10) as nat)]);
    }
    while m > 0
        invariant
            m == 0 ==> decimal(n as nat) == rev@.reverse(),
            m > 0 ==> decimal(n as nat) == decimal(m as nat) + rev@.reverse(),
        decreases m,
    {
        let ghost r0 = rev@;
        let d = digit(m % 10);
        rev.push(d);
        proof {
            assert(rev@.reverse() =~= seq![d] + r0.reverse());
            if m >= 10 {
                assert(decimal(m as nat) == decimal((m / 10) as nat).push(d));
                assert(decimal((m / 10) as nat).push(d) + r0.reverse() =~= decimal((m / 10) as nat) + (seq![d]
                    + r0.reverse()));
            } else {
                assert(decimal(m as nat) == seq![d]);
            }
        }
        m = m / 10;
    }
    let ghost start = out@;
    let mut k: usize = rev.len();
    while k > 0
        invariant
            k <= rev@.len(),
            out@ == start + rev@.subrange(k as int, rev@.len() as int).reverse(),
        decreases k,
    {
        k = k - 1;
        let ghost before = out@;
        out.push(rev[k]);
        proof {
            assert(rev@.subrange(k as int, rev@.len() as int).reverse() =~= rev@.subrange(
                k + 1,
                rev@.len() as int,
            ).reverse().push(rev@[k as int]));
        }
    }
    proof {
        assert(rev@.subrange(0, rev@.len() as int) =~= rev@);
    }
}

/// A number written in decimal, as text.
pub(crate) fn decimal_text(n: u64) -> (s: String)
    ensures
        s@ == decimal(n as nat),
{
    let mut chars: Vec<char> = Vec::new();
    push_digits(&mut chars, n);
    proof {
        assert(chars@ =~= decimal(n as nat));
    }
    string_from_chars(&chars)
}

/// A signed number written in decimal, as text.
pub(crate) fn signed_text(n: i64) -> (s: String)
    ensures
        s@ == signed_decimal(n as int),
{
    let mut chars: Vec<char> = Vec::new();
    if n < 0 {
        chars.push('-');
        let size: u64 = (0i128 - n as i128) as u64;
        push_digits(&mut chars, size);
    } else {
        push_digits(&mut chars, n as u64);
        proof {
            assert(chars@ =~= decimal(n as nat));
        }
    }
    string_from_chars(&chars)
}

/// The characters of `text`, in order.
fn chars_of(text: &str) -> (r: Vec<char>)
    ensures
        r@ == text@,
{
    let n = text.unicode_len();
    let mut out: Vec<char> = Vec::new();
    let mut i: usize = 0;
    while i < n
        invariant
            n == text@.len(),
            i <= n,
            out@ == text@.subrange(0, i as int),
        decreases n - i,
    {
        out.push(text.get_char(i));
        i = i + 1;
        proof {
            assert(out@ =~= text@.subrange(0, i as int));
        }
    }
    proof {
        assert(out@ =~= text@);
    }
    out
}

/// Split a message into its space-separated words.
fn split_words(text: &Vec<char>) -> (r: Vec<Vec<char>>)
    ensures
        r@.map_values(|w: Vec<char>| w@) == split_spaces(text@),
{
    let mut done: Vec<Vec<char>> = Vec::new();
    let mut cur: Vec<char> = Vec::new();
    let mut i: usize = 0;
    while i < text.len()
        invariant
            i <= text@.len(),
            done@.map_values(|w: Vec<char>| w@).push(cur@) == split_spaces(text@.subrange(0, i as int)),
        decreases text@.len() - i,
    {
        let c = text[i];
        let ghost prefix = text@.subrange(0, i as int);
        let ghost next = text@.subrange(0, i as int + 1);
        proof {
            assert(next.drop_last() =~= prefix);
            assert(next.last() == c);
        }
        if c == ' ' {
            let finished = cur;
            let ghost dv = done@.map_values(|w: Vec<char>| w@);
            done.push(finished);
            cur = Vec::new();
            proof {
                assert(done@.map_values(|w: Vec<char>| w@) =~= dv.push(finished@));
                assert(done@.map_values(|w: Vec<char>| w@).push(cur@) =~= split_spaces(next));
            }
        } else {
            let ghost before = cur@;
            cur.push(c);
            proof {
                let dv = done@.map_values(|w: Vec<char>| w@);
                assert(dv.push(cur@) =~= dv.push(before).update(dv.len() as int, before.push(c)));
            }
        }
        i = i + 1;
    }
    proof {
        assert(text@.subrange(0, text@.len() as int) =~= text@);
    }
    let ghost dv = done@.map_values(|w: Vec<char>| w@);
    let last = cur;
    done.push(last);
    proof {
        assert(done@.map_values(|w: Vec<char>| w@) =~= dv.push(last@));
    }
    done
}

/// The views of a list of character vectors.
pub open spec fn char_lines(v: Seq<Vec<char>>) -> Seq<Seq<char>> {
    v.map_values(|l: Vec<char>| l@)
}

/// The views of a list of strings.
pub open spec fn string_lines(v: Seq<String>) -> Seq<Seq<char>> {
    v.map_values(|l: String| l@)
}

/// Cut pieces of `width` characters off the front of `word` while it is too
/// long for a line of its own, flushing the line in progress first.
fn split_long_word(out: &mut Vec<Vec<char>>, line: &mut Vec<char>, word: &mut Vec<char>, width: usize)
    requires
        width > 0,
        all_fit(char_lines(old(out)@), width as nat),
        old(line)@.len() <= width,
    ensures
        (char_lines(final(out)@), final(line)@, final(word)@) == hard_split(
            char_lines(old(out)@),
            old(line)@,
            old(word)@,
            width as nat,
        ),
        all_fit(char_lines(final(out)@), width as nat),
        final(line)@.len() <= width,
        final(word)@.len() <= width,
{
    let ghost target = hard_split(char_lines(out@), line@, word@, width as nat);
    while word.len() > width
        invariant
            width > 0,
            hard_split(char_lines(out@), line@, word@, width as nat) == target,
            all_fit(char_lines(out@), width as nat),
            line@.len() <= width,
        decreases word@.len(),
    {
        let ghost o0 = char_lines(out@);
        let ghost l0 = line@;
        let ghost w0 = word@;
        if line.len() > 0 {
            let mut flushed: Vec<char> = Vec::new();
            std::mem::swap(&mut flushed, line);
            out.push(flushed);
            proof {
                assert(char_lines(out@) =~= o0.push(l0));
            }
        }
        let ghost o1 = char_lines(out@);
        let rest = word.split_off(width);
        let mut head: Vec<char> = rest;
        std::mem::swap(&mut head, word);
        out.push(head);
        proof {
            assert(char_lines(out@) =~= o1.push(w0.take(width as int)));
            assert(word@ =~= w0.skip(width as int));
            assert(line@ =~= Seq::<char>::empty());
        }
    }
}

/// Greedy word wrap of `text` to `width` columns.
///
/// Over-long words are hard-split and no trailing space is emitted.
pub fn wrap(text: &str, width: usize) -> (r: Vec<String>)
    requires
        width > 0,
    ensures
        string_lines(r@) == wrap_spec(text@, width as nat),
        all_fit(string_lines(r@), width as nat),
{
    let chars = chars_of(text);
    let words = split_words(&chars);
    let ghost ws = words@.map_values(|w: Vec<char>| w@);
    let ghost full = |w: Seq<char>| w.len() > 0;
    let mut out: Vec<Vec<char>> = Vec::new();
    let mut line: Vec<char> = Vec::new();
    let mut k: usize = 0;
    proof {
        assert(ws.subrange(0, 0) =~= Seq::<Seq<char>>::empty());
        assert(ws.subrange(0, 0).filter(full) =~= Seq::<Seq<char>>::empty());
        assert(char_lines(out@) =~= Seq::<Seq<char>>::empty());
    }
    while k < words.len()
        invariant
            width > 0,
            ws == words@.map_values(|w: Vec<char>| w@),
            ws == split_spaces(text@),
            full == (|w: Seq<char>| w.len() > 0),
            k <= words@.len(),
            place_words(ws.subrange(0, k as int).filter(full), width as nat) == (char_lines(out@), line@),
            all_fit(char_lines(out@), width as nat),
            line@.len() <= width,
        decreases words@.len() - k,
    {
        let ghost sub = ws.subrange(0, k as int + 1);
        proof {
            assert(sub.drop_last() =~= ws.subrange(0, k as int));
            assert(sub.last() == words@[k as int]@);
            assert(sub =~= ws.subrange(0, k as int).push(words@[k as int]@));
            ws.subrange(0, k as int).lemma_filter_push(words@[k as int]@, full);
            let pf = ws.subrange(0, k as int).filter(full);
            assert(pf.push(words@[k as int]@).drop_last() =~= pf);
        }
        if words[k].len() == 0 {
            k = k + 1;
            continue;
        }
        let mut word: Vec<char> = words[k].clone();
        proof {
            assert(word@ =~= words@[k as int]@);
        }
        let ghost o0 = char_lines(out@);
        let ghost l0 = line@;
        let ghost w0 = word@;
        split_long_word(&mut out, &mut line, &mut word, width);
        let extra: usize = if line.len() > 0 { 1 } else { 0 };
        let room: usize = width - line.len();
        if extra > room || word.len() > room - extra {
            let ghost o1 = char_lines(out@);
            let mut flushed: Vec<char> = Vec::new();
            std::mem::swap(&mut flushed, &mut line);
            out.push(flushed);
            proof {
                assert(char_lines(out@) =~= o1.push(flushed@));
            }
        }
        if line.len() > 0 {
            line.push(' ');
        }
        let ghost l2 = line@;
        let ghost w2 = word@;
        line.append(&mut word);
        proof {
            assert(line@ =~= l2 + w2);
        }
        k = k + 1;
    }
    proof {
        assert(ws.subrange(0, ws.len() as int) =~= ws);
    }
    if line.len() > 0 || out.len() == 0 {
        let ghost o1 = char_lines(out@);
        let last = line;
        out.push(last);
        proof {
            assert(char_lines(out@) =~= o1.push(last@));
        }
    }
    let mut r: Vec<String> = Vec::new();
    let mut j: usize = 0;
    while j < out.len()
        invariant
            j <= out@.len(),
            string_lines(r@) =~= char_lines(out@).subrange(0, j as int),
        decreases out@.len() - j,
    {
        let s = string_from_chars(&out[j]);
        let ghost before = string_lines(r@);
        r.push(s);
        proof {
            assert(string_lines(r@) =~= before.push(s@));
            assert(char_lines(out@).subrange(0, j as int + 1) =~= char_lines(out@).subrange(0, j as int).push(
                out@[j as int]@,
            ));
        }
        j = j + 1;
    }
    proof {
        assert(char_lines(out@).subrange(0, out@.len() as int) =~= char_lines(out@));
    }
    r
}

/// What a bounded log keeps of `all`: the most recent `CAPACITY` lines.
pub open spec fn keep_recent(all: Seq<Seq<char>>) -> Seq<Seq<char>> {
    if all.len() > CAPACITY {
        all.skip(all.len() - CAPACITY)
    } else {
        all
    }
}

/// The log after each of `lines` is added to it in turn.
pub open spec fn said_all(log: Seq<Seq<char>>, lines: Seq<Seq<char>>) -> Seq<Seq<char>>
    decreases lines.len(),
{
    if lines.len() == 0 {
        log
    } else {
        keep_recent(said_all(log, lines.drop_last()) + wrap_spec(lines.last(), WRAP_WIDTH as nat))
    }
}

/// Three pieces joined are the pieces laid end to end.
pub proof fn lemma_flatten3(a: Seq<char>, b: Seq<char>, c: Seq<char>)
    ensures
        seq![a, b, c].flatten() == a + b + c,
{
    let s = seq![a, b, c];
    reveal_with_fuel(Seq::flatten, 4);
    assert(s.drop_first() =~= seq![b, c]);
    assert(seq![b, c].drop_first() =~= seq![c]);
    assert(seq![c].drop_first() =~= Seq::<Seq<char>>::empty());
    assert(seq![c].first() == c);
    assert(seq![c].flatten() =~= c + Seq::<char>::empty());
    assert(seq![c].flatten() =~= c);
    assert(seq![b, c].flatten() =~= b + c);
    assert(s.flatten() =~= a + (b + c));
}

/// A bounded ring of wrapped message lines, oldest first.
#[derive(Debug)]
pub struct MessageLog {
    lines: Vec<String>,
}

impl MessageLog {
    /// Every log holds at most [`CAPACITY`] lines, none wider than
    /// [`WRAP_WIDTH`].
    #[verifier::type_invariant]
    spec fn bounded(self) -> bool {
        &&& self.lines@.len() <= CAPACITY
        &&& all_fit(string_lines(self.lines@), WRAP_WIDTH as nat)
    }
}

impl View for MessageLog {
    type V = Seq<Seq<char>>;

    closed spec fn view(&self) -> Seq<Seq<char>> {
        string_lines(self.lines@)
    }
}

impl MessageLog {
    /// An empty log.
    pub fn new() -> (log: Self)
        ensures
            log@ == Seq::<Seq<char>>::empty(),
    {
        let log = MessageLog { lines: Vec::new() };
        proof {
            assert(log@ =~= Seq::<Seq<char>>::empty());
        }
        log
    }

    /// Add a message, wrapping it to [`WRAP_WIDTH`] first. Once more than
    /// [`CAPACITY`] lines are held, the oldest are dropped.
    pub fn add(&mut self, message: &str)
        ensures
            final(self)@ == keep_recent(old(self)@ + wrap_spec(message@, WRAP_WIDTH as nat)),
            final(self)@.len() <= CAPACITY,
            all_fit(final(self)@, WRAP_WIDTH as nat),
    {
        proof {
            use_type_invariant(&*self);
        }
        let wrapped = wrap(message, WRAP_WIDTH);
        let ghost start = self@;
        let ghost added = string_lines(wrapped@);
        let mut lines: Vec<String> = Vec::new();
        std::mem::swap(&mut lines, &mut self.lines);
        proof {
            assert(string_lines(lines@) == start);
        }
        let mut i: usize = 0;
        while i < wrapped.len()
            invariant
                i <= wrapped@.len(),
                added == string_lines(wrapped@),
                string_lines(lines@) =~= start + added.subrange(0, i as int),
            decreases wrapped@.len() - i,
        {
            let line = wrapped[i].clone();
            let ghost before = lines@;
            lines.push(line);
            proof {
                assert(string_lines(lines@) =~= string_lines(before).push(line@));
                assert(added.subrange(0, i as int + 1) =~= added.subrange(0, i as int).push(added[i as int]));
            }
            i = i + 1;
        }
        proof {
            assert(added.subrange(0, added.len() as int) =~= added);
        }
        let ghost all = string_lines(lines@);
        if lines.len() > CAPACITY {
            let at = lines.len() - CAPACITY;
            let kept = lines.split_off(at);
            lines = kept;
            proof {
                assert(string_lines(lines@) =~= all.skip(at as int));
            }
        }
        proof {
            assert forall|k: int| 0 <= k < string_lines(lines@).len() implies (#[trigger] string_lines(lines@)[k]).len()
                <= WRAP_WIDTH by {
                let j = if all.len() > CAPACITY { k + all.len() - CAPACITY } else { k };
                assert(string_lines(lines@)[k] == all[j]);
                if j >= start.len() {
                    assert(all[j] == added[j - start.len()]);
                } else {
                    assert(all[j] == start[j]);
                }
            }
        }
        self.lines = lines;
    }

    /// Every retained line, oldest first.
    ///
    /// Whatever was said to it, a log holds at most [`CAPACITY`] lines and
    /// none is wider than [`WRAP_WIDTH`].
    pub fn lines(&self) -> (r: &[String])
        ensures
            string_lines(r@) == self@,
            self@.len() <= CAPACITY,
            all_fit(self@, WRAP_WIDTH as nat),
    {
        proof {
            use_type_invariant(self);
        }
        self.lines.as_slice()
    }

    /// The last `n` lines, oldest first: what a fixed-height panel shows.
    pub fn tail(&self, n: usize) -> (r: &[String])
        ensures
            string_lines(r@) == self@.subrange(
                if self@.len() > n { self@.len() - n } else { 0 },
                self@.len() as int,
            ),
    {
        let len = self.lines.len();
        let start: usize = if len > n { len - n } else { 0 };
        let r = vstd::slice::slice_subrange(self.lines.as_slice(), start, len);
        proof {
            assert(string_lines(r@) =~= self@.subrange(start as int, len as int));
        }
        r
    }
}

/// How many pages of [`PAGE_LINES`] entries a list of `count` fills.
pub open spec fn page_count(count: nat) -> nat {
    ((count + PAGE_LINES - 1) / PAGE_LINES as int) as nat
}

/// Cursor and paging state for the organelle sidebar.
///
/// The list itself is the player's mass, which lives on the world; only the
/// selection lives here. `nice_turn` exists because winning and losing rewind
/// the schedule clock to zero, and the displayed turn counter must not follow
/// it back down.
#[derive(Clone, Copy, Debug, Default)]
pub struct OrganelleLog {
    idx: usize,
    page: usize,
    nice_turn: u64,
}

impl OrganelleLog {
    /// The cursor as last moved, before clamping to a list.
    pub closed spec fn cursor(&self) -> nat {
        self.idx as nat
    }

    /// The page as last turned to, before wrapping to a list.
    pub closed spec fn scrolled(&self) -> nat {
        self.page as nat
    }

    /// The highest schedule time seen.
    pub closed spec fn high_water(&self) -> nat {
        self.nice_turn as nat
    }

    /// The page counter stays within what `turn_page` can step from.
    pub open spec fn wf(&self) -> bool {
        self.scrolled() <= i32::MAX
    }

    /// The selection a list of `count` entries shows.
    pub open spec fn selected_spec(&self, count: nat) -> nat {
        if count == 0 || self.cursor() >= count {
            0
        } else {
            self.cursor()
        }
    }

    /// The page a list of `count` entries shows.
    pub open spec fn page_spec(&self, count: nat) -> nat {
        if self.scrolled() == 0 || page_count(count) == 0 {
            0
        } else {
            self.scrolled() % page_count(count)
        }
    }

    /// A fresh cursor at the top of the list.
    pub fn new() -> (log: Self)
        ensures
            log.cursor() == 0,
            log.scrolled() == 0,
            log.high_water() == 0,
            log.wf(),
    {
        OrganelleLog { idx: 0, page: 0, nice_turn: 0 }
    }

    /// The selected entry's index, clamped to a list of `count` entries.
    pub fn selected(&self, count: usize) -> (r: usize)
        ensures
            r == self.selected_spec(count as nat),
            count > 0 ==> r < count,
    {
        if count == 0 || self.idx >= count {
            0
        } else {
            self.idx
        }
    }

    /// The page currently scrolled to, given `count` entries.
    pub fn page(&self, count: usize) -> (r: usize)
        ensures
            r == self.page_spec(count as nat),
            page_count(count as nat) > 0 ==> r < page_count(count as nat),
    {
        let pages: usize = count / PAGE_LINES + if count % PAGE_LINES == 0 { 0 } else { 1 };
        assert(pages == page_count(count as nat)) by (nonlinear_arith)
            requires
                pages == count / PAGE_LINES + if count % PAGE_LINES == 0 { 0int } else { 1int },
                PAGE_LINES == 55,
        ;
        if self.page == 0 || pages == 0 {
            0
        } else {
            self.page % pages
        }
    }

    /// Move the selection by `by` entries, wrapping at both ends.
    pub fn scroll(&mut self, by: i32, count: usize)
        ensures
            count == 0 ==> final(self).cursor() == 0,
            count > 0 ==> final(self).cursor() == (old(self).selected_spec(count as nat) + by) % (
            count as int),
            final(self).scrolled() == old(self).scrolled(),
            final(self).high_water() == old(self).high_water(),
    {
        if count == 0 {
            self.idx = 0;
            return ;
        }
        let cur = self.selected(count);
        let v: i128 = cur as i128 + by as i128;
        let len: i128 = count as i128;
        if v >= 0 {
            self.idx = (v % len) as usize;
        } else {
            let neg: i128 = -v;
            let r: i128 = neg % len;
            proof {
                lemma_negative_mod(v as int, len as int, r as int);
            }
            if r == 0 {
                self.idx = 0;
            } else {
                self.idx = (len - r) as usize;
            }
        }
    }

    /// Move by whole screens. Clamped at the top, wrapped at the bottom by
    /// [`OrganelleLog::page`]; the counter itself stops at `i32::MAX`.
    pub fn turn_page(&mut self, by: i32)
        requires
            old(self).wf(),
        ensures
            final(self).wf(),
            final(self).scrolled() == if old(self).scrolled() + by < 0 {
                0
            } else if old(self).scrolled() + by > i32::MAX {
                i32::MAX as nat
            } else {
                (old(self).scrolled() + by) as nat
            },
            final(self).cursor() == old(self).cursor(),
            final(self).high_water() == old(self).high_water(),
    {
        let cur = self.page as i64;
        let next: i64 = cur + by as i64;
        self.page = if next < 0 {
            0
        } else if next > 2147483647 {
            2147483647
        } else {
            next as usize
        };
    }

    /// Feed the schedule clock in; the counter only ever climbs.
    pub fn observe_time(&mut self, time: u64)
        ensures
            final(self).high_water() == if time > old(self).high_water() {
                time as nat
            } else {
                old(self).high_water()
            },
            final(self).cursor() == old(self).cursor(),
            final(self).scrolled() == old(self).scrolled(),
    {
        if time > self.nice_turn {
            self.nice_turn = time;
        }
    }

    /// The highest schedule time seen, in ticks; the displayed turn number
    /// is this divided by one turn's length.
    pub fn nice_turn(&self) -> (r: u64)
        ensures
            r == self.high_water(),
    {
        self.nice_turn
    }
}

/// The Euclidean remainder of a negative number, from that of its negation.
pub(crate) proof fn lemma_negative_mod(v: int, len: int, r: int)
    requires
        v < 0,
        len > 0,
        r == (-v) % len,
    ensures
        r == 0 ==> v % len == 0,
        r != 0 ==> v % len == len - r,
{
    let q = (-v) / len;
    vstd::arithmetic::div_mod::lemma_fundamental_div_mod(-v, len);
    assert(-v == len * q + r);
    vstd::arithmetic::mul::lemma_mul_is_commutative(len, q);
    if r == 0 {
        assert(v == (-q) * len + 0) by (nonlinear_arith)
            requires
                -v == q * len,
        ;
        vstd::arithmetic::div_mod::lemma_fundamental_div_mod_converse(v, len, -q, 0);
    } else {
        assert(v == (-q - 1) * len + (len - r)) by (nonlinear_arith)
            requires
                -v == q * len + r,
        ;
        vstd::arithmetic::div_mod::lemma_fundamental_div_mod_converse(v, len, -q - 1, len - r);
    }
}

} // verus!
