//! The comment editor: a small multi-line buffer with readline bindings.
//!
//! Byte-indexed like everything else here, and every cursor move lands on a character boundary. Two
//! different word definitions are implemented on purpose, matching readline:
//!
//! * `C-w` (`unix-word-rubout`) -- whitespace-delimited, so it eats punctuation
//! * `M-DEL` / `M-d` / `M-b` / `M-f` (`*-word`) -- alphanumeric words
//!
//! No kill ring: killed text is gone.
use vstd::prelude::*;
use vstd::string::*;
use vstd::utf8::*;
use crate::text::{
    blank, blen, byte_len, char_index, is_blank, is_cut, is_white, lemma_boundary_is_offset,
    lemma_char_index_of_offset, lemma_encode_concat, lemma_offset_ends, lemma_offset_is_boundary,
    lemma_offset_mono, lemma_until, lemma_until_bound, offset, pieces, slices, split, split_on,
    str_eq, texts, until, white, Laid,
};

verus! {

#[derive(Debug)]
pub struct Editor {
    pub text: String,
    /// Byte index, always on a character boundary.
    pub cursor: usize,
    pub history: Vec<String>,
    /// `None` while editing; `Some(i)` while browsing history.
    pub browsing: Option<usize>,
    pub stash: String,
}

/// The editor as what lies on either side of the cursor, and what history browsing needs.
pub struct Draft {
    pub before: Seq<char>,
    pub after: Seq<char>,
    pub history: Seq<Seq<char>>,
    pub browsing: Option<int>,
    pub stash: Seq<char>,
}

/// What `char::is_alphanumeric` answers.
pub uninterp spec fn alphanumeric(c: char) -> bool;

/// `char::is_alphanumeric`. Claimed: it is a function of the character alone.
#[verifier::external_body]
fn is_alphanumeric(c: char) -> (r: bool)
    ensures
        r == alphanumeric(c),
{
    c.is_alphanumeric()
}

pub open spec fn in_word(c: char) -> bool {
    alphanumeric(c) || c == '_'
}

fn is_word(c: char) -> (r: bool)
    ensures
        r == in_word(c),
{
    is_alphanumeric(c) || c == '_'
}

// ---------------------------------------------------------------------------
// What each key does to a draft
// ---------------------------------------------------------------------------

/// A class of characters that a motion runs over.
#[derive(Debug, Clone, Copy, PartialEq, Eq, Structural)]
pub enum Class {
    /// Anything but a line feed.
    Line,
    Word,
    NotWord,
    White,
    NotWhite,
}

impl Class {
    pub open spec fn holds(self, c: char) -> bool {
        match self {
            Class::Line => c != '\n',
            Class::Word => in_word(c),
            Class::NotWord => !in_word(c),
            Class::White => is_white(c),
            Class::NotWhite => !is_white(c),
        }
    }

    fn test(self, c: char) -> (r: bool)
        ensures
            r == self.holds(c),
    {
        match self {
            Class::Line => c != '\n',
            Class::Word => is_word(c),
            Class::NotWord => !is_word(c),
            Class::White => white(c),
            Class::NotWhite => !white(c),
        }
    }
}

/// Start of the run of characters of a class that ends at `n`.
pub open spec fn run_start(s: Seq<char>, n: int, k: Class) -> int
    decreases n,
{
    if n > 0 && k.holds(s[n - 1]) {
        run_start(s, n - 1, k)
    } else {
        n
    }
}

/// End of the run of characters of a class that starts at `i`.
pub open spec fn run_stop(s: Seq<char>, i: int, k: Class) -> int
    decreases s.len() - i,
{
    if 0 <= i < s.len() && k.holds(s[i]) {
        run_stop(s, i + 1, k)
    } else {
        i
    }
}

/// Index behind the last line feed.
pub open spec fn line_start_of(s: Seq<char>) -> int {
    run_start(s, s.len() as int, Class::Line)
}

/// Index of the first line feed; the length where there is none.
pub open spec fn line_end_of(s: Seq<char>) -> int {
    run_stop(s, 0, Class::Line)
}

/// Where the word before the end of `s` starts, whatever stands between skipped.
pub open spec fn word_start_of(s: Seq<char>) -> int {
    run_start(s, run_start(s, s.len() as int, Class::NotWord), Class::Word)
}

/// Where the next word of `s` ends.
pub open spec fn word_end_of(s: Seq<char>) -> int {
    run_stop(s, run_stop(s, 0, Class::NotWord), Class::Word)
}

/// Where the run of non-whitespace before the end of `s` starts, whitespace behind it skipped.
pub open spec fn blob_start_of(s: Seq<char>) -> int {
    run_start(s, run_start(s, s.len() as int, Class::White), Class::NotWhite)
}

impl Draft {
    pub open spec fn text(self) -> Seq<char> {
        self.before + self.after
    }

    /// The cursor moved to character `k`.
    pub open spec fn at(self, k: int) -> Draft {
        Draft { before: self.text().take(k), after: self.text().skip(k), ..self }
    }

    /// An edit: history browsing ends.
    pub open spec fn edited(self, before: Seq<char>, after: Seq<char>) -> Draft {
        Draft { before, after, browsing: None, ..self }
    }

    pub open spec fn empty() -> Draft {
        Draft {
            before: Seq::empty(),
            after: Seq::empty(),
            history: Seq::empty(),
            browsing: None,
            stash: Seq::empty(),
        }
    }

    pub open spec fn fresh(self) -> Draft {
        Draft {
            before: Seq::empty(),
            after: Seq::empty(),
            history: self.history,
            browsing: None,
            stash: Seq::empty(),
        }
    }

    /// The text goes to the history unless it is blank or repeats the last entry.
    pub open spec fn submitted(self) -> Draft {
        let keep = is_blank(self.text()) || (self.history.len() > 0 && self.history.last()
            == self.text());
        Draft {
            history: if keep {
                self.history
            } else {
                self.history.push(self.text())
            },
            ..self.fresh()
        }
    }

    pub open spec fn moved_left(self) -> Draft {
        if self.before.len() > 0 {
            self.at(self.before.len() - 1)
        } else {
            self
        }
    }

    pub open spec fn moved_right(self) -> Draft {
        if self.after.len() > 0 {
            self.at(self.before.len() as int + 1)
        } else {
            self
        }
    }

    pub open spec fn moved_home(self) -> Draft {
        self.at(line_start_of(self.before))
    }

    pub open spec fn moved_end(self) -> Draft {
        self.at(self.before.len() + line_end_of(self.after))
    }

    pub open spec fn moved_word_left(self) -> Draft {
        self.at(word_start_of(self.before))
    }

    pub open spec fn moved_word_right(self) -> Draft {
        self.at(self.before.len() + word_end_of(self.after))
    }

    pub open spec fn typed(self, c: char) -> Draft {
        self.edited(self.before.push(c), self.after)
    }

    pub open spec fn erased(self) -> Draft {
        if self.before.len() > 0 {
            self.edited(self.before.drop_last(), self.after)
        } else {
            self
        }
    }

    pub open spec fn deleted(self) -> Draft {
        if self.after.len() > 0 {
            self.edited(self.before, self.after.drop_first())
        } else {
            self
        }
    }

    /// Up to the end of the line, or the line feed itself where the cursor is there already.
    pub open spec fn killed_to_end(self) -> Draft {
        let n = line_end_of(self.after);
        self.edited(
            self.before,
            if n == 0 && self.after.len() > 0 {
                self.after.drop_first()
            } else {
                self.after.skip(n)
            },
        )
    }

    pub open spec fn killed_to_start(self) -> Draft {
        self.edited(self.before.take(line_start_of(self.before)), self.after)
    }

    pub open spec fn killed_blob(self) -> Draft {
        self.edited(self.before.take(blob_start_of(self.before)), self.after)
    }

    pub open spec fn killed_word_back(self) -> Draft {
        self.edited(self.before.take(word_start_of(self.before)), self.after)
    }

    pub open spec fn killed_word_forward(self) -> Draft {
        self.edited(self.before, self.after.skip(word_end_of(self.after)))
    }

    /// One entry further back in the history; the draft is stashed on the way in.
    pub open spec fn recalled(self) -> Draft {
        if self.history.len() == 0 {
            self
        } else {
            let i = match self.browsing {
                None => self.history.len() - 1,
                Some(i) => if i > 0 {
                    i - 1
                } else {
                    0
                },
            };
            Draft {
                before: self.history[i],
                after: Seq::empty(),
                browsing: Some(i),
                stash: if self.browsing is None {
                    self.text()
                } else {
                    self.stash
                },
                ..self
            }
        }
    }

    /// One entry further on; past the last one the stashed draft comes back.
    pub open spec fn advanced(self) -> Draft {
        match self.browsing {
            None => self,
            Some(i) => if i + 1 >= self.history.len() {
                Draft {
                    before: self.stash,
                    after: Seq::empty(),
                    browsing: None,
                    stash: Seq::empty(),
                    ..self
                }
            } else {
                Draft {
                    before: self.history[i + 1],
                    after: Seq::empty(),
                    browsing: Some(i + 1),
                    ..self
                }
            },
        }
    }
}

// ---------------------------------------------------------------------------
// Laws
// ---------------------------------------------------------------------------

/// Erasing takes back what was typed, and so does deleting forward from before it. Typing leaves
/// the rest of the text as it was.
pub proof fn law_typing_is_undone_by_erasing(d: Draft, c: char)
    ensures
        d.typed(c).erased().before == d.before,
        d.typed(c).erased().after == d.after,
        d.typed(c).moved_left().deleted().before == d.before,
        d.typed(c).moved_left().deleted().after == d.after,
        d.typed(c).text() == d.before + seq![c] + d.after,
{
    let t = d.typed(c);
    assert(t.before.drop_last() =~= d.before);
    assert(t.text() =~= d.before + seq![c] + d.after);
    let l = t.moved_left();
    assert(l.before =~= d.before);
    assert(l.after.drop_first() =~= d.after);
}

/// Moving left and right are inverse wherever there is room to move.
pub proof fn law_left_and_right_undo_each_other(d: Draft)
    ensures
        d.before.len() > 0 ==> d.moved_left().moved_right() == d,
        d.after.len() > 0 ==> d.moved_right().moved_left() == d,
{
    if d.before.len() > 0 {
        let m = d.moved_left();
        assert(m.text() =~= d.text());
        assert(m.moved_right().before =~= d.before);
        assert(m.moved_right().after =~= d.after);
    }
    if d.after.len() > 0 {
        let m = d.moved_right();
        assert(m.text() =~= d.text());
        assert(m.moved_left().before =~= d.before);
        assert(m.moved_left().after =~= d.after);
    }
}

/// A motion changes neither the text nor what history browsing remembers.
pub open spec fn only_moved(d: Draft, e: Draft) -> bool {
    &&& e.text() == d.text()
    &&& e.history == d.history
    &&& e.browsing == d.browsing
    &&& e.stash == d.stash
}

proof fn lemma_at(d: Draft, k: int)
    requires
        0 <= k <= d.text().len(),
    ensures
        only_moved(d, d.at(k)),
{
    assert(d.at(k).text() =~= d.text());
}

proof fn lemma_run_start(s: Seq<char>, n: int, k: Class)
    requires
        0 <= n <= s.len(),
    ensures
        0 <= run_start(s, n, k) <= n,
    decreases n,
{
    if n > 0 && k.holds(s[n - 1]) {
        lemma_run_start(s, n - 1, k);
    }
}

proof fn lemma_run_stop(s: Seq<char>, i: int, k: Class)
    requires
        0 <= i <= s.len(),
    ensures
        i <= run_stop(s, i, k) <= s.len(),
    decreases s.len() - i,
{
    if i < s.len() && k.holds(s[i]) {
        lemma_run_stop(s, i + 1, k);
    }
}

/// Every motion only moves: the text stays, and so does the stashed draft of a history browse.
pub proof fn law_motions_only_move(d: Draft)
    ensures
        only_moved(d, d.moved_left()),
        only_moved(d, d.moved_right()),
        only_moved(d, d.moved_home()),
        only_moved(d, d.moved_end()),
        only_moved(d, d.moved_word_left()),
        only_moved(d, d.moved_word_right()),
{
    let n = d.before.len() as int;
    if n > 0 {
        lemma_at(d, n - 1);
    }
    if d.after.len() > 0 {
        lemma_at(d, n + 1);
    }
    lemma_run_start(d.before, n, Class::Line);
    lemma_at(d, line_start_of(d.before));
    lemma_run_stop(d.after, 0, Class::Line);
    lemma_at(d, n + line_end_of(d.after));
    lemma_word_start(d.before);
    lemma_at(d, word_start_of(d.before));
    lemma_word_end(d.after);
    lemma_at(d, n + word_end_of(d.after));
}

proof fn lemma_word_start(s: Seq<char>)
    ensures
        0 <= word_start_of(s) <= s.len(),
{
    lemma_run_start(s, s.len() as int, Class::NotWord);
    lemma_run_start(s, run_start(s, s.len() as int, Class::NotWord), Class::Word);
}

proof fn lemma_word_end(s: Seq<char>)
    ensures
        0 <= word_end_of(s) <= s.len(),
{
    lemma_run_stop(s, 0, Class::NotWord);
    lemma_run_stop(s, run_stop(s, 0, Class::NotWord), Class::Word);
}

/// What is being typed survives a look into the history: recalling the last comment, moving about
/// in it in any way and going on again brings the draft back.
pub proof fn law_history_gives_the_draft_back(d: Draft, e: Draft)
    requires
        d.browsing is None,
        d.history.len() > 0,
        only_moved(d.recalled(), e),
    ensures
        d.recalled().text() == d.history.last(),
        e.advanced().text() == d.text(),
        e.advanced().browsing is None,
        e.advanced().history == d.history,
{
    assert(d.recalled().text() =~= d.history.last());
    assert(e.advanced().text() =~= d.text());
}

/// While browsing, going back one entry and on again shows the same entry, except at the oldest,
/// where going back stays put.
pub proof fn law_history_steps_undo_each_other(d: Draft)
    requires
        d.browsing matches Some(i) && 0 < i < d.history.len() && d.text() == d.history[i],
    ensures
        d.recalled().advanced().text() == d.text(),
        d.recalled().advanced().browsing == d.browsing,
        d.recalled().advanced().stash == d.stash,
{
    assert(d.recalled().advanced().text() =~= d.text());
}

/// A submitted comment is the last entry of the history, unless it is blank; the buffer is empty
/// afterwards and submitting an empty buffer changes nothing in the history.
pub proof fn law_submitting_records_the_comment(d: Draft)
    ensures
        !is_blank(d.text()) ==> d.submitted().history.len() > 0 && d.submitted().history.last()
            == d.text(),
        is_blank(d.text()) ==> d.submitted().history == d.history,
        d.submitted().text().len() == 0,
        d.submitted().submitted().history == d.submitted().history,
{
    assert(is_blank(d.submitted().text()));
}

// ---------------------------------------------------------------------------
// The editor
// ---------------------------------------------------------------------------

proof fn lemma_parts(b: Seq<char>, a: Seq<char>)
    ensures
        offset(b + a, b.len() as int) == blen(b),
        is_cut(b + a, blen(b)),
        char_index(b + a, blen(b)) == b.len(),
        (b + a).take(b.len() as int) == b,
        (b + a).skip(b.len() as int) == a,
{
    let s = b + a;
    assert(s.take(b.len() as int) =~= b);
    assert(s.skip(b.len() as int) =~= a);
    lemma_offset_is_boundary(s, b.len() as int);
    lemma_char_index_of_offset(s, b.len() as int);
    lemma_offset_mono(s, b.len() as int, s.len() as int);
}

proof fn lemma_offset_before(s: Seq<char>, n: int, k: int)
    requires
        0 <= k <= n <= s.len(),
    ensures
        offset(s.take(n), k) == offset(s, k),
{
    assert(s.take(n).take(k) =~= s.take(k));
}

proof fn lemma_offset_after(s: Seq<char>, n: int, k: int)
    requires
        0 <= n <= s.len(),
        0 <= k <= s.len() - n,
    ensures
        offset(s, n + k) == offset(s, n) + offset(s.skip(n), k),
{
    assert(s.take(n + k) =~= s.take(n) + s.skip(n).take(k));
    lemma_encode_concat(s.take(n), s.skip(n).take(k));
}

/// Back over a run of characters.
fn run_back(l: &Laid, n: usize, k: Class) -> (r: usize)
    requires
        l.wf(),
        n <= l.text@.len(),
    ensures
        r == run_start(l.text@, n as int, k),
        r <= n,
{
    let mut i: usize = n;
    while i > 0 && k.test(l.chars[i - 1])
        invariant
            l.wf(),
            i <= n <= l.text@.len(),
            run_start(l.text@, i as int, k) == run_start(l.text@, n as int, k),
        decreases i,
    {
        i -= 1;
    }
    i
}

/// On over a run of characters.
fn run_on(l: &Laid, i: usize, k: Class) -> (r: usize)
    requires
        l.wf(),
        i <= l.text@.len(),
    ensures
        r == run_stop(l.text@, i as int, k),
        i <= r <= l.text@.len(),
{
    let n: usize = l.chars.len();
    let mut j: usize = i;
    while j < n && k.test(l.chars[j])
        invariant
            l.wf(),
            n == l.text@.len(),
            i <= j <= n,
            run_stop(l.text@, j as int, k) == run_stop(l.text@, i as int, k),
        decreases n - j,
    {
        j += 1;
    }
    j
}

/// Line feeds in `s`.
pub open spec fn feeds(s: Seq<char>) -> int
    decreases s.len(),
{
    if s.len() == 0 {
        0
    } else if s.last() == '\n' {
        feeds(s.drop_last()) + 1
    } else {
        feeds(s.drop_last())
    }
}

impl Default for Editor {
    fn default() -> (r: Self)
        ensures
            r.wf(),
            r.model() == Draft::empty(),
    {
        let r = Editor {
            text: String::new(),
            cursor: 0,
            history: Vec::new(),
            browsing: None,
            stash: String::new(),
        };
        proof {
            lemma_parts(Seq::empty(), Seq::empty());
            assert(r.text@ =~= Seq::<char>::empty() + Seq::<char>::empty());
            lemma_offset_ends(r.text@);
            assert(r.model().before =~= Seq::empty());
            assert(r.model().after =~= Seq::empty());
            assert(r.model().history =~= Seq::empty());
        }
        r
    }
}

impl Editor {
    /// The cursor is on a character boundary and a browsed entry exists.
    pub open spec fn wf(self) -> bool {
        &&& is_cut(self.text@, self.cursor as int)
        &&& self.browsing matches Some(i) ==> i < self.history@.len()
    }

    pub open spec fn model(self) -> Draft {
        let k = char_index(self.text@, self.cursor as int);
        Draft {
            before: self.text@.take(k),
            after: self.text@.skip(k),
            history: texts(self.history@),
            browsing: match self.browsing {
                Some(i) => Some(i as int),
                None => None,
            },
            stash: self.stash@,
        }
    }

    /// The two parts of the model make up the text.
    pub proof fn lemma_text(self)
        requires
            self.wf(),
        ensures
            self.model().text() == self.text@,
            blen(self.model().before) == self.cursor,
            self.cursor <= blen(self.text@),
    {
        lemma_boundary_is_offset(self.text@, self.cursor as int);
        assert(self.model().text() =~= self.text@);
    }

    pub fn text(&self) -> (r: &str)
        ensures
            r@ == self.text@,
            self.wf() ==> r@ == self.model().text(),
    {
        proof {
            if self.wf() {
                self.lemma_text();
            }
        }
        self.text.as_str()
    }

    /// The text on either side of the cursor.
    fn sides(&self) -> (r: (&str, &str))
        requires
            self.wf(),
        ensures
            r.0@ == self.model().before,
            r.1@ == self.model().after,
            blen(r.0@) == self.cursor,
    {
        split(self.text.as_str(), self.cursor)
    }

    /// Cursor as `(row, byte column)`, both 0-based.
    pub fn row_col(&self) -> (r: (usize, usize))
        requires
            self.wf(),
        ensures
            r.0 == feeds(self.model().before),
            r.1 == blen(self.model().before.skip(line_start_of(self.model().before))),
    {
        let b = self.sides().0;
        let l = Laid::new(b);
        let n: usize = l.chars.len();
        let mut row: usize = 0;
        let mut i: usize = 0;
        proof {
            assert(b@.take(0) =~= Seq::<char>::empty());
        }
        while i < n
            invariant
                l.wf(),
                l.text@ == b@,
                n == b@.len(),
                row <= i <= n,
                row == feeds(b@.take(i as int)),
            decreases n - i,
        {
            proof {
                assert(b@.take(i + 1).drop_last() =~= b@.take(i as int));
            }
            if l.chars[i] == '\n' {
                row += 1;
            }
            i += 1;
        }
        proof {
            assert(b@.take(n as int) =~= b@);
        }
        let k: usize = run_back(&l, n, Class::Line);
        proof {
            assert(b@.skip(k as int) =~= b@.subrange(k as int, n as int));
        }
        (row, byte_len(l.sub(k, n)))
    }

    pub fn rows(&self) -> (r: Vec<&str>)
        ensures
            slices(r@) == split_on(self.text@, '\n'),
    {
        pieces(self.text.as_str(), '\n')
    }

    pub fn start_fresh(&mut self)
        requires
            old(self).wf(),
        ensures
            final(self).wf(),
            final(self).model() == old(self).model().fresh(),
    {
        self.text = String::new();
        self.cursor = 0;
        self.browsing = None;
        self.stash = String::new();
        proof {
            lemma_parts(Seq::empty(), Seq::empty());
            assert(self.text@ =~= Seq::<char>::empty() + Seq::<char>::empty());
            lemma_offset_ends(self.text@);
            assert(self.model().before =~= Seq::empty());
            assert(self.model().after =~= Seq::empty());
        }
    }

    /// Record a submitted comment for `C-p` recall and reset for the next one.
    pub fn submit(&mut self) -> (r: String)
        requires
            old(self).wf(),
        ensures
            final(self).wf(),
            r@ == old(self).model().text(),
            final(self).model() == old(self).model().submitted(),
    {
        proof {
            self.lemma_text();
        }
        let out = self.text.clone();
        let n: usize = self.history.len();
        let ghost h = self.history@;
        if !blank(out.as_str()) && !(n > 0 && str_eq(self.history[n - 1].as_str(), out.as_str())) {
            self.history.push(out.clone());
            proof {
                assert(texts(self.history@) =~= texts(h).push(out@));
            }
        }
        proof {
            if n > 0 {
                assert(texts(h).last() == h[n - 1]@);
            }
        }
        self.start_fresh();
        out
    }

    /// Replaces the whole text, the cursor at its end.
    pub fn set(&mut self, s: &str)
        requires
            old(self).wf(),
        ensures
            final(self).wf(),
            final(self).model() == old(self).model().edited(s@, Seq::empty()),
    {
        self.rebuild(s, "");
        proof {
            reveal_strlit("");
            assert(self.model().after =~= Seq::empty());
        }
    }

    /// New text on either side of the cursor; history browsing ends.
    fn rebuild(&mut self, before: &str, after: &str)
        requires
            old(self).wf(),
        ensures
            final(self).wf(),
            final(self).model() == old(self).model().edited(before@, after@),
    {
        let mut t = before.to_owned();
        t.append(after);
        let at: usize = byte_len(before);
        proof {
            lemma_parts(before@, after@);
        }
        self.text = t;
        self.cursor = at;
        self.browsing = None;
    }

    /// Back to character `k` of the text before the cursor.
    fn go_back(&mut self, byte: usize, Ghost(k): Ghost<int>)
        requires
            old(self).wf(),
            0 <= k <= old(self).model().before.len(),
            byte == offset(old(self).model().before, k),
        ensures
            final(self).wf(),
            final(self).model() == old(self).model().at(k),
    {
        proof {
            self.lemma_text();
            lemma_boundary_is_offset(self.text@, self.cursor as int);
            let n = char_index(self.text@, self.cursor as int);
            lemma_offset_before(self.text@, n, k);
            lemma_offset_is_boundary(self.text@, k);
            lemma_char_index_of_offset(self.text@, k);
            lemma_offset_mono(self.text@, k, n);
        }
        self.cursor = byte;
    }

    /// On to character `k` of the text behind the cursor.
    fn go_on(&mut self, by: usize, Ghost(k): Ghost<int>)
        requires
            old(self).wf(),
            0 <= k <= old(self).model().after.len(),
            by == offset(old(self).model().after, k),
        ensures
            final(self).wf(),
            final(self).model() == old(self).model().at(old(self).model().before.len() + k),
    {
        let _len: usize = byte_len(self.text.as_str());
        proof {
            self.lemma_text();
            lemma_boundary_is_offset(self.text@, self.cursor as int);
            let n = char_index(self.text@, self.cursor as int);
            lemma_offset_after(self.text@, n, k);
            lemma_offset_is_boundary(self.text@, n + k);
            lemma_char_index_of_offset(self.text@, n + k);
            lemma_offset_mono(self.text@, n, n + k);
        }
        self.cursor = self.cursor + by;
    }

    // ---- movement ----

    // Movement does not end history browsing: moving the cursor is not editing, and the stashed
    // draft has to stay reachable.
    pub fn left(&mut self)
        requires
            old(self).wf(),
        ensures
            final(self).wf(),
            final(self).model() == old(self).model().moved_left(),
    {
        let l = Laid::new(self.sides().0);
        let n: usize = l.chars.len();
        if n > 0 {
            let byte: usize = l.offs[n - 1];
            self.go_back(byte, Ghost(n - 1));
        }
    }

    pub fn right(&mut self)
        requires
            old(self).wf(),
        ensures
            final(self).wf(),
            final(self).model() == old(self).model().moved_right(),
    {
        let l = Laid::new(self.sides().1);
        if l.chars.len() > 0 {
            let by: usize = l.offs[1];
            self.go_on(by, Ghost(1));
        }
    }

    /// `C-a`
    pub fn home(&mut self)
        requires
            old(self).wf(),
        ensures
            final(self).wf(),
            final(self).model() == old(self).model().moved_home(),
    {
        let l = Laid::new(self.sides().0);
        let k: usize = run_back(&l, l.chars.len(), Class::Line);
        let byte: usize = l.offs[k];
        self.go_back(byte, Ghost(k as int));
    }

    /// `C-e`
    pub fn end(&mut self)
        requires
            old(self).wf(),
        ensures
            final(self).wf(),
            final(self).model() == old(self).model().moved_end(),
    {
        let l = Laid::new(self.sides().1);
        let k: usize = run_on(&l, 0, Class::Line);
        let by: usize = l.offs[k];
        self.go_on(by, Ghost(k as int));
    }

    /// `M-b`
    pub fn word_left(&mut self)
        requires
            old(self).wf(),
        ensures
            final(self).wf(),
            final(self).model() == old(self).model().moved_word_left(),
    {
        let l = Laid::new(self.sides().0);
        let j: usize = run_back(&l, l.chars.len(), Class::NotWord);
        let k: usize = run_back(&l, j, Class::Word);
        let byte: usize = l.offs[k];
        self.go_back(byte, Ghost(k as int));
    }

    /// `M-f`
    pub fn word_right(&mut self)
        requires
            old(self).wf(),
        ensures
            final(self).wf(),
            final(self).model() == old(self).model().moved_word_right(),
    {
        let l = Laid::new(self.sides().1);
        let j: usize = run_on(&l, 0, Class::NotWord);
        let k: usize = run_on(&l, j, Class::Word);
        let by: usize = l.offs[k];
        self.go_on(by, Ghost(k as int));
    }

    // ---- editing ----

    pub fn insert(&mut self, c: char)
        requires
            old(self).wf(),
        ensures
            final(self).wf(),
            final(self).model() == old(self).model().typed(c),
    {
        let (b, a) = self.sides();
        let mut before = b.to_owned();
        before.push(c);
        let after = a.to_owned();
        self.rebuild(before.as_str(), after.as_str());
    }

    /// `C-j`
    pub fn newline(&mut self)
        requires
            old(self).wf(),
        ensures
            final(self).wf(),
            final(self).model() == old(self).model().typed('\n'),
    {
        self.insert('\n');
    }

    /// Drops what lies between character `k` of the text before the cursor and the cursor.
    fn drop_before(&mut self, k: usize)
        requires
            old(self).wf(),
            k <= old(self).model().before.len(),
        ensures
            final(self).wf(),
            final(self).model() == old(self).model().edited(
                old(self).model().before.take(k as int),
                old(self).model().after,
            ),
    {
        let (b, a) = self.sides();
        let l = Laid::new(b);
        let before = l.sub(0, k).to_owned();
        let after = a.to_owned();
        proof {
            assert(b@.subrange(0, k as int) =~= b@.take(k as int));
        }
        self.rebuild(before.as_str(), after.as_str());
    }

    /// Drops the first `k` characters of the text behind the cursor.
    fn drop_after(&mut self, k: usize)
        requires
            old(self).wf(),
            k <= old(self).model().after.len(),
        ensures
            final(self).wf(),
            final(self).model() == old(self).model().edited(
                old(self).model().before,
                old(self).model().after.skip(k as int),
            ),
    {
        let (b, a) = self.sides();
        let l = Laid::new(a);
        let before = b.to_owned();
        let after = l.sub(k, l.chars.len()).to_owned();
        proof {
            assert(a@.subrange(k as int, a@.len() as int) =~= a@.skip(k as int));
        }
        self.rebuild(before.as_str(), after.as_str());
    }

    pub fn backspace(&mut self)
        requires
            old(self).wf(),
        ensures
            final(self).wf(),
            final(self).model() == old(self).model().erased(),
    {
        let n: usize = Laid::new(self.sides().0).chars.len();
        if n > 0 {
            proof {
                let b = self.model().before;
                assert(b.take(n - 1) =~= b.drop_last());
            }
            self.drop_before(n - 1);
        }
    }

    /// `C-d`
    pub fn delete_forward(&mut self)
        requires
            old(self).wf(),
        ensures
            final(self).wf(),
            final(self).model() == old(self).model().deleted(),
    {
        let n: usize = Laid::new(self.sides().1).chars.len();
        if n > 0 {
            proof {
                let a = self.model().after;
                assert(a.skip(1) =~= a.drop_first());
            }
            self.drop_after(1);
        }
    }

    /// `C-k` -- to end of line, or swallow the newline when already there.
    pub fn kill_to_end(&mut self)
        requires
            old(self).wf(),
        ensures
            final(self).wf(),
            final(self).model() == old(self).model().killed_to_end(),
    {
        let l = Laid::new(self.sides().1);
        let n: usize = l.chars.len();
        let k: usize = run_on(&l, 0, Class::Line);
        proof {
            let a = self.model().after;
            if a.len() > 0 {
                assert(a.skip(1) =~= a.drop_first());
            }
        }
        if k == 0 && n > 0 {
            self.drop_after(1);
        } else {
            self.drop_after(k);
        }
    }

    /// `C-u` -- readline's `unix-line-discard`: back to the start of the line, leaving whatever sits
    /// after the cursor.
    pub fn kill_to_start(&mut self)
        requires
            old(self).wf(),
        ensures
            final(self).wf(),
            final(self).model() == old(self).model().killed_to_start(),
    {
        let l = Laid::new(self.sides().0);
        let k: usize = run_back(&l, l.chars.len(), Class::Line);
        self.drop_before(k);
    }

    /// `C-w` -- whitespace-delimited, so it takes punctuation with it.
    pub fn kill_word_back_ws(&mut self)
        requires
            old(self).wf(),
        ensures
            final(self).wf(),
            final(self).model() == old(self).model().killed_blob(),
    {
        let l = Laid::new(self.sides().0);
        let j: usize = run_back(&l, l.chars.len(), Class::White);
        let k: usize = run_back(&l, j, Class::NotWhite);
        self.drop_before(k);
    }

    /// `M-DEL`
    pub fn kill_word_back(&mut self)
        requires
            old(self).wf(),
        ensures
            final(self).wf(),
            final(self).model() == old(self).model().killed_word_back(),
    {
        let l = Laid::new(self.sides().0);
        let j: usize = run_back(&l, l.chars.len(), Class::NotWord);
        let k: usize = run_back(&l, j, Class::Word);
        self.drop_before(k);
    }

    /// `M-d`
    pub fn kill_word_forward(&mut self)
        requires
            old(self).wf(),
        ensures
            final(self).wf(),
            final(self).model() == old(self).model().killed_word_forward(),
    {
        let l = Laid::new(self.sides().1);
        let j: usize = run_on(&l, 0, Class::NotWord);
        let k: usize = run_on(&l, j, Class::Word);
        self.drop_after(k);
    }

    // ---- history ----

    /// Shows `s` with the cursor at its end.
    fn show(&mut self, s: String)
        requires
            old(self).wf(),
        ensures
            final(self).wf(),
            final(self).model() == (Draft {
                before: s@,
                after: Seq::empty(),
                ..old(self).model()
            }),
            final(self).history == old(self).history,
    {
        let at: usize = byte_len(s.as_str());
        proof {
            lemma_parts(s@, Seq::empty());
            assert(s@ + Seq::<char>::empty() =~= s@);
        }
        self.text = s;
        self.cursor = at;
    }

    /// `C-p`
    pub fn history_prev(&mut self)
        requires
            old(self).wf(),
        ensures
            final(self).wf(),
            final(self).model() == old(self).model().recalled(),
    {
        let n: usize = self.history.len();
        if n == 0 {
            return;
        }
        proof {
            self.lemma_text();
        }
        let i: usize = match self.browsing {
            None => {
                self.stash = self.text.clone();
                n - 1
            },
            Some(i) => if i > 0 {
                i - 1
            } else {
                0
            },
        };
        self.browsing = Some(i);
        let s = self.history[i].clone();
        proof {
            assert(texts(self.history@)[i as int] == s@);
        }
        self.show(s);
    }

    /// `C-n`
    pub fn history_next(&mut self)
        requires
            old(self).wf(),
        ensures
            final(self).wf(),
            final(self).model() == old(self).model().advanced(),
    {
        let n: usize = self.history.len();
        match self.browsing {
            None => {},
            Some(i) => {
                if i + 1 >= n {
                    self.browsing = None;
                    let s = self.stash.clone();
                    self.stash = String::new();
                    self.show(s);
                } else {
                    self.browsing = Some(i + 1);
                    let s = self.history[i + 1].clone();
                    proof {
                        assert(texts(self.history@)[i + 1] == s@);
                    }
                    self.show(s);
                }
            },
        }
    }
}

proof fn lemma_line_start_is(s: Seq<char>, k: int, n: int)
    requires
        0 <= k <= n <= s.len(),
        forall|i: int| k <= i < n ==> #[trigger] s[i] != '\n',
        k > 0 ==> s[k - 1] == '\n',
    ensures
        run_start(s, n, Class::Line) == k,
    decreases n,
{
    if n > k {
        lemma_line_start_is(s, k, n - 1);
    }
}

proof fn lemma_feeds_concat(a: Seq<char>, b: Seq<char>)
    ensures
        feeds(a + b) == feeds(a) + feeds(b),
    decreases b.len(),
{
    if b.len() == 0 {
        assert(a + b =~= a);
    } else {
        assert((a + b).drop_last() =~= a + b.drop_last());
        lemma_feeds_concat(a, b.drop_last());
    }
}

proof fn lemma_no_feeds(s: Seq<char>)
    requires
        forall|i: int| 0 <= i < s.len() ==> #[trigger] s[i] != '\n',
    ensures
        feeds(s) == 0,
    decreases s.len(),
{
    if s.len() > 0 {
        lemma_no_feeds(s.drop_last());
    }
}

proof fn lemma_last_line_of(s: Seq<char>, i: int)
    requires
        0 <= i < s.len(),
        s[i] == '\n',
    ensures
        line_start_of(s) == i + 1 + line_start_of(s.skip(i + 1)),
        0 <= line_start_of(s.skip(i + 1)) <= s.len() - i - 1,
{
    let t = s.skip(i + 1);
    let k = line_start_of(t);
    lemma_run_start(t, t.len() as int, Class::Line);
    lemma_line_start(t, t.len() as int);
    assert forall|j: int| i + 1 + k <= j < s.len() implies #[trigger] s[j] != '\n' by {
        assert(t[j - i - 1] == s[j]);
    }
    if k > 0 {
        assert(t[k - 1] == s[i + k]);
    }
    lemma_line_start_is(s, i + 1 + k, s.len() as int);
}

proof fn lemma_line_start(s: Seq<char>, n: int)
    requires
        0 <= n <= s.len(),
    ensures
        forall|i: int| run_start(s, n, Class::Line) <= i < n ==> #[trigger] s[i] != '\n',
        run_start(s, n, Class::Line) > 0 ==> s[run_start(s, n, Class::Line) - 1] == '\n',
    decreases n,
{
    if n > 0 && s[n - 1] != '\n' {
        lemma_line_start(s, n - 1);
    }
}

/// The cursor is in the row that it is said to be in: of the rows of the text, the one with the
/// number of line feeds before the cursor starts with the text from the last of them up to the
/// cursor.
pub proof fn law_the_cursor_is_in_its_row(before: Seq<char>, after: Seq<char>)
    ensures
        0 <= feeds(before) < split_on(before + after, '\n').len(),
        split_on(before + after, '\n')[feeds(before)] == before.skip(line_start_of(before))
            + after.take(until(after, '\n')),
    decreases before.len(),
{
    let s = before + after;
    lemma_until_bound(before, '\n');
    lemma_until_bound(after, '\n');
    let i = until(before, '\n');
    if i == before.len() {
        lemma_no_feeds(before);
        lemma_line_start_is(before, 0, before.len() as int);
        assert(before.skip(0) =~= before);
        let n = before.len() + until(after, '\n');
        assert forall|k: int| 0 <= k < n implies #[trigger] s[k] != '\n' by {
            if k < before.len() {
                assert(s[k] == before[k]);
            } else {
                assert(s[k] == after[k - before.len()]);
            }
        }
        lemma_until(s, '\n', n);
        if n < s.len() {
            assert(s.take(n) =~= before + after.take(until(after, '\n')));
        } else {
            assert(after.take(until(after, '\n')) =~= after);
        }
    } else {
        let b2 = before.skip(i + 1);
        law_the_cursor_is_in_its_row(b2, after);
        assert forall|k: int| 0 <= k < i implies #[trigger] s[k] != '\n' by {
            assert(s[k] == before[k]);
        }
        lemma_until(s, '\n', i);
        assert(s.skip(i + 1) =~= b2 + after);
        let head = before.take(i + 1);
        assert(head + b2 =~= before);
        lemma_feeds_concat(head, b2);
        assert(head.drop_last() =~= before.take(i));
        lemma_no_feeds(before.take(i));
        lemma_last_line_of(before, i);
        assert(before.skip(line_start_of(before)) =~= b2.skip(line_start_of(b2)));
    }
}

// ---------------------------------------------------------------------------
// Where motions lead and what kills take
// ---------------------------------------------------------------------------

proof fn lemma_run_start_is(s: Seq<char>, n: int, k: Class)
    requires
        0 <= n <= s.len(),
    ensures
        0 <= run_start(s, n, k) <= n,
        forall|i: int| run_start(s, n, k) <= i < n ==> k.holds(#[trigger] s[i]),
        run_start(s, n, k) > 0 ==> !k.holds(s[run_start(s, n, k) - 1]),
    decreases n,
{
    if n > 0 && k.holds(s[n - 1]) {
        lemma_run_start_is(s, n - 1, k);
    }
}

proof fn lemma_run_stop_is(s: Seq<char>, i: int, k: Class)
    requires
        0 <= i <= s.len(),
    ensures
        i <= run_stop(s, i, k) <= s.len(),
        forall|j: int| i <= j < run_stop(s, i, k) ==> k.holds(#[trigger] s[j]),
        run_stop(s, i, k) < s.len() ==> !k.holds(s[run_stop(s, i, k)]),
    decreases s.len() - i,
{
    if i < s.len() && k.holds(s[i]) {
        lemma_run_stop_is(s, i + 1, k);
    }
}

/// A character of a word: a letter, a digit or an underscore.
pub open spec fn word_char(c: char) -> bool {
    alphanumeric(c) || c == '_'
}

/// `[k, s.len())` is the last word of `s` and what stands behind it: `[k, j)` is the longest run of
/// word characters that ends at `j`, and no word character stands from `j` on. Both are 0 where `s`
/// holds no word.
pub open spec fn last_word(s: Seq<char>, k: int, j: int) -> bool {
    &&& 0 <= k <= j <= s.len()
    &&& forall|i: int| j <= i < s.len() ==> !word_char(#[trigger] s[i])
    &&& forall|i: int| k <= i < j ==> word_char(#[trigger] s[i])
    &&& k > 0 ==> k < j && !word_char(s[k - 1])
}

/// `[0, k)` is the first word of `s` and what stands before it: no word character before `j`, and
/// `[j, k)` the longest run of them from there. Both are the length where `s` holds no word.
pub open spec fn first_word(s: Seq<char>, j: int, k: int) -> bool {
    &&& 0 <= j <= k <= s.len()
    &&& forall|i: int| 0 <= i < j ==> !word_char(#[trigger] s[i])
    &&& forall|i: int| j <= i < k ==> word_char(#[trigger] s[i])
    &&& k < s.len() ==> j < k && !word_char(s[k])
}

proof fn lemma_last_word(s: Seq<char>)
    ensures
        last_word(s, word_start_of(s), run_start(s, s.len() as int, Class::NotWord)),
{
    let j = run_start(s, s.len() as int, Class::NotWord);
    lemma_run_start_is(s, s.len() as int, Class::NotWord);
    lemma_run_start_is(s, j, Class::Word);
}

proof fn lemma_first_word(s: Seq<char>)
    ensures
        first_word(s, run_stop(s, 0, Class::NotWord), word_end_of(s)),
{
    let j = run_stop(s, 0, Class::NotWord);
    lemma_run_stop_is(s, 0, Class::NotWord);
    lemma_run_stop_is(s, j, Class::Word);
}

/// A step to the left or to the right moves the cursor by one character, and not at all at the end
/// of the text.
pub proof fn law_a_step_is_one_character(d: Draft)
    ensures
        d.before.len() > 0 ==> d.moved_left().before == d.before.drop_last(),
        d.before.len() == 0 ==> d.moved_left() == d,
        d.after.len() > 0 ==> d.moved_right().after == d.after.drop_first(),
        d.after.len() == 0 ==> d.moved_right() == d,
{
    if d.before.len() > 0 {
        assert(d.moved_left().before =~= d.before.drop_last());
    }
    if d.after.len() > 0 {
        assert(d.moved_right().after =~= d.after.drop_first());
    }
}

/// Home and End stay in the line. Home goes back over everything up to the line feed before it, End
/// on over everything up to the one behind it.
pub proof fn law_home_and_end_are_the_ends_of_the_line(d: Draft)
    ensures
        ({
            let k = d.moved_home().before.len() as int;
            &&& 0 <= k <= d.before.len()
            &&& forall|i: int| k <= i < d.before.len() ==> #[trigger] d.before[i] != '\n'
            &&& k > 0 ==> d.before[k - 1] == '\n'
        }),
        ({
            let k = d.after.len() - d.moved_end().after.len();
            &&& 0 <= k <= d.after.len()
            &&& forall|i: int| 0 <= i < k ==> #[trigger] d.after[i] != '\n'
            &&& k < d.after.len() ==> d.after[k] == '\n'
        }),
{
    lemma_run_start_is(d.before, d.before.len() as int, Class::Line);
    lemma_run_stop_is(d.after, 0, Class::Line);
    assert forall|i: int| line_start_of(d.before) <= i < d.before.len() implies #[trigger] d.before[i]
        != '\n' by {
        assert(Class::Line.holds(d.before[i]));
    }
    assert forall|i: int| 0 <= i < line_end_of(d.after) implies #[trigger] d.after[i] != '\n' by {
        assert(Class::Line.holds(d.after[i]));
    }
}

/// A word to the left is the start of the last word before the cursor, a word to the right the end
/// of the first word behind it; each goes to the end of the text where there is no such word.
pub proof fn law_word_motions_stop_at_words(d: Draft)
    ensures
        exists|k: int, j: int| #[trigger]
            last_word(d.before, k, j) && k == d.moved_word_left().before.len(),
        exists|j: int, k: int| #[trigger]
            first_word(d.after, j, k) && k == d.after.len() - d.moved_word_right().after.len(),
{
    lemma_last_word(d.before);
    lemma_first_word(d.after);
    assert(d.moved_word_left().before.len() == word_start_of(d.before));
    assert(d.after.len() - d.moved_word_right().after.len() == word_end_of(d.after));
}

/// A kill takes what the motion of the same kind moves over, and nothing else: what is on the other
/// side of the cursor stays, and so do the history and the stash; a look into the history ends.
/// Killing to the end of a line that the cursor is at the end of takes the line feed.
pub proof fn law_kills_take_what_motions_pass(d: Draft)
    ensures
        d.killed_to_start().before == d.moved_home().before && d.killed_to_start().after == d.after,
        d.killed_word_back().before == d.moved_word_left().before && d.killed_word_back().after
            == d.after,
        d.killed_word_forward().after == d.moved_word_right().after
            && d.killed_word_forward().before == d.before,
        d.killed_to_end().before == d.before,
        d.after.len() > 0 && d.after[0] == '\n' ==> d.killed_to_end().after == d.after.drop_first(),
        !(d.after.len() > 0 && d.after[0] == '\n') ==> d.killed_to_end().after
            == d.moved_end().after,
        d.killed_blob().after == d.after,
        forall|e: Draft|
            e == d.killed_to_start() || e == d.killed_word_back() || e == d.killed_word_forward() || e
                == d.killed_to_end() || e == d.killed_blob() ==> (#[trigger] e.browsing) is None
                && e.history == d.history && e.stash == d.stash,
{
    lemma_run_start_is(d.before, d.before.len() as int, Class::Line);
    lemma_run_stop_is(d.after, 0, Class::Line);
    lemma_last_word(d.before);
    lemma_first_word(d.after);
    let n = d.before.len() as int;
    assert(d.killed_to_start().before =~= d.moved_home().before);
    assert(d.killed_word_back().before =~= d.moved_word_left().before);
    assert(d.killed_word_forward().after =~= d.moved_word_right().after);
    if d.after.len() > 0 {
        assert(Class::Line.holds(d.after[0]) == (d.after[0] != '\n'));
    }
    if !(d.after.len() > 0 && d.after[0] == '\n') {
        assert(d.killed_to_end().after =~= d.moved_end().after);
    }
}

/// The whitespace kill takes the last run of anything but white space before the cursor, whatever it
/// is made of, and the white space behind it.
pub proof fn law_the_blob_is_between_white_spaces(d: Draft)
    ensures
        exists|j: int| #[trigger]
            d.before.take(j).len() == j && ({
                let k = d.killed_blob().before.len() as int;
                &&& 0 <= k <= j <= d.before.len()
                &&& d.killed_blob().before == d.before.take(k)
                &&& forall|i: int| j <= i < d.before.len() ==> is_white(#[trigger] d.before[i])
                &&& forall|i: int| k <= i < j ==> !is_white(#[trigger] d.before[i])
                &&& k > 0 ==> k < j && is_white(d.before[k - 1])
            }),
{
    let n = d.before.len() as int;
    let j = run_start(d.before, n, Class::White);
    lemma_run_start_is(d.before, n, Class::White);
    lemma_run_start_is(d.before, j, Class::NotWhite);
    let k = blob_start_of(d.before);
    assert(d.killed_blob().before == d.before.take(k));
    assert(d.before.take(k).len() == k);
    assert forall|i: int| j <= i < n implies is_white(#[trigger] d.before[i]) by {
        assert(Class::White.holds(d.before[i]));
    }
    assert forall|i: int| k <= i < j implies !is_white(#[trigger] d.before[i]) by {
        assert(Class::NotWhite.holds(d.before[i]));
    }
    assert(d.before.take(j).len() == j);
}

/// Typing, erasing and deleting change one character beside the cursor; what is on the other side,
/// the history and the stash stay, and a look into the history ends. With nothing to take, nothing
/// changes at all.
pub proof fn law_an_edit_is_one_character(d: Draft, c: char)
    ensures
        d.typed(c).before == d.before + seq![c] && d.typed(c).after == d.after,
        d.before.len() > 0 ==> d.erased().before + seq![d.before.last()] == d.before
            && d.erased().after == d.after && d.erased().browsing is None,
        d.after.len() > 0 ==> seq![d.after[0]] + d.deleted().after == d.after && d.deleted().before
            == d.before && d.deleted().browsing is None,
        d.before.len() == 0 ==> d.erased() == d,
        d.after.len() == 0 ==> d.deleted() == d,
        d.typed(c).browsing is None,
        d.typed(c).history == d.history && d.erased().history == d.history && d.deleted().history
            == d.history,
        d.typed(c).stash == d.stash && d.erased().stash == d.stash && d.deleted().stash == d.stash,
{
    assert(d.typed(c).before =~= d.before + seq![c]);
    if d.before.len() > 0 {
        assert(d.erased().before + seq![d.before.last()] =~= d.before);
    }
    if d.after.len() > 0 {
        assert(seq![d.after[0]] + d.deleted().after =~= d.after);
    }
}

/// Submitting adds one entry at the end of the history, or none where the text is blank or repeats
/// the last one; what was there stays. The buffer is left as a fresh one, and so is that of a
/// comment given up, whose text is not recorded.
pub proof fn law_submitting_only_adds_to_the_history(d: Draft)
    ensures
        d.submitted().history == d.history || d.submitted().history == d.history.push(d.text()),
        d.history.len() > 0 && d.history.last() == d.text() ==> d.submitted().history == d.history,
        d.submitted().before.len() == 0 && d.submitted().after.len() == 0,
        d.submitted().browsing is None && d.submitted().stash.len() == 0,
        d.fresh().before.len() == 0 && d.fresh().after.len() == 0,
        d.fresh().browsing is None && d.fresh().stash.len() == 0 && d.fresh().history == d.history,
{
}

/// A look into the history goes entry by entry, from the last back to the first, and stays there;
/// on the way back it ends behind the last entry. Each entry is shown whole, with the cursor behind
/// it, and looking changes no entry.
pub proof fn law_history_is_walked_entry_by_entry(d: Draft)
    requires
        d.history.len() > 0,
        d.browsing matches Some(i) ==> 0 <= i < d.history.len(),
    ensures
        d.browsing is None ==> d.recalled().browsing == Some(d.history.len() - 1)
            && d.recalled().before == d.history.last() && d.recalled().stash == d.text(),
        d.browsing matches Some(i) ==> i > 0 ==> d.recalled().browsing == Some(i - 1)
            && d.recalled().before == d.history[i - 1] && d.recalled().stash == d.stash,
        d.browsing == Some(0int) ==> d.recalled().browsing == Some(0int) && d.recalled().before
            == d.history[0] && d.recalled().stash == d.stash,
        d.browsing is None ==> d.advanced() == d,
        d.browsing matches Some(i) ==> i + 1 < d.history.len() ==> d.advanced().browsing == Some(
            i + 1,
        ) && d.advanced().before == d.history[i + 1] && d.advanced().after.len() == 0
            && d.advanced().stash == d.stash,
        d.browsing matches Some(i) ==> i + 1 == d.history.len() ==> d.advanced().browsing is None
            && d.advanced().before == d.stash && d.advanced().after.len() == 0,
        d.recalled().after.len() == 0,
        d.recalled().history == d.history && d.advanced().history == d.history,
{
}

/// Without a history there is nothing to look at.
pub proof fn law_no_history_changes_nothing(d: Draft)
    requires
        d.history.len() == 0,
    ensures
        d.recalled() == d,
{
}

} // verus!
