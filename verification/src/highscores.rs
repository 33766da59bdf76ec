use vstd::prelude::*;

use crate::consts::HIGHSCORES_STORED;
use crate::text::{chars_of, decimal, digit_char, push_char, u64_to_string};

verus! {

// The best scores are kept in the highscores table. They are not
// distinguished by number and kind of players in the game.

/// One line of the highscores table.
#[derive(Clone)]
pub struct HighscoresEntry {
    pub name: String,
    pub score: u64,
    /// Whether the entry was added in the game that just finished.
    pub new: bool,
}

impl HighscoresEntry {
    pub fn is_new(&self) -> (res: bool)
        ensures
            res == self.new,
    {
        self.new
    }
}

/// The highscores table: at most `HIGHSCORES_STORED` entries, best first.
pub struct Highscores {
    pub entries: Vec<HighscoresEntry>,
}

impl Highscores {
    /// A well-formed table: at most ten entries, best first.
    pub open spec fn wf(&self) -> bool {
        self.entries@.len() <= 10 && descending_view(entries_view(self.entries@))
    }

    /// An empty table.
    pub fn empty() -> (h: Highscores)
        ensures
            h.entries@.len() == 0,
            h.wf(),
    {
        Highscores { entries: Vec::new() }
    }

    pub fn entries(&self) -> (res: &[HighscoresEntry])
        ensures
            res@ == self.entries@,
    {
        self.entries.as_slice()
    }

    /// If the score was good enough, updates the table and returns true.
    /// Otherwise, returns false. A new entry goes before the first entry
    /// with a lower score; the table keeps at most ten entries.
    pub fn update(&mut self, player_name: String, score: u64) -> (changed: bool)
        ensures
            changed == qualifies(entries_view(old(self).entries@), score),
            entries_view(final(self).entries@) == updated(entries_view(old(self).entries@), player_name@, score),
    {
        let ghost es = entries_view(self.entries@);
        let len = self.entries.len();
        let last = if len == 0 {
            0
        } else {
            self.entries[len - 1].score
        };
        let changed = score > 0 && (score > last || len < HIGHSCORES_STORED);
        if changed {
            let mut index: usize = 0;
            while index < self.entries.len() && self.entries[index].score >= score
                invariant
                    index <= self.entries@.len(),
                    es == entries_view(self.entries@),
                    forall|j: int| 0 <= j < index ==> #[trigger] es[j].1 >= score,
                decreases self.entries@.len() - index,
            {
                index += 1;
            }
            proof {
                lemma_insert_index(es, score, index as int);
            }
            let ghost name = player_name@;
            let entry = HighscoresEntry { name: player_name, score, new: true };
            self.entries.insert(index, entry);
            assert(entries_view(self.entries@) =~= es.insert(index as int, (name, score, true)));
            if self.entries.len() > HIGHSCORES_STORED {
                self.entries.pop();
                assert(entries_view(self.entries@) =~= es.insert(index as int, (name, score, true)).drop_last());
            }
        }
        changed
    }
}

/// Whether `score` earns a place in the table: it is positive, and it beats
/// the last entry or the table is not full.
pub open spec fn qualifies(es: Seq<EntryView>, score: u64) -> bool {
    score > 0 && (score > (if es.len() == 0 {
        0
    } else {
        es.last().1
    }) || es.len() < 10)
}

/// Where a new score goes: before the first entry with a lower score, or
/// at the end.
pub open spec fn insert_index(es: Seq<EntryView>, score: u64) -> int
    decreases es.len(),
{
    if es.len() == 0 || es[0].1 < score {
        0
    } else {
        1 + insert_index(es.drop_first(), score)
    }
}

/// The table after a player with `score` is offered a place: when the
/// score qualifies, a new entry goes in at `insert_index` and the entry
/// that falls off the end, if any, leaves.
pub open spec fn updated(es: Seq<EntryView>, name: Seq<char>, score: u64) -> Seq<EntryView> {
    if qualifies(es, score) {
        let s = es.insert(insert_index(es, score), (name, score, true));
        if s.len() > 10 {
            s.drop_last()
        } else {
            s
        }
    } else {
        es
    }
}

/// The first index whose score is below `score` is `insert_index`.
proof fn lemma_insert_index(es: Seq<EntryView>, score: u64, k: int)
    requires
        0 <= k <= es.len(),
        forall|j: int| 0 <= j < k ==> #[trigger] es[j].1 >= score,
        k < es.len() ==> es[k].1 < score,
    ensures
        insert_index(es, score) == k,
    decreases es.len(),
{
    if es.len() > 0 && k > 0 {
        assert(es[0].1 >= score);
        assert forall|j: int| 0 <= j < k - 1 implies #[trigger] es.drop_first()[j].1 >= score by {
            assert(es.drop_first()[j] == es[j + 1]);
        }
        lemma_insert_index(es.drop_first(), score, k - 1);
    }
}

/// `insert_index` lies within the table, after every entry with a score at
/// least as high and before every lower one.
proof fn lemma_insert_index_bounds(es: Seq<EntryView>, score: u64)
    ensures
        0 <= insert_index(es, score) <= es.len(),
        forall|j: int| 0 <= j < insert_index(es, score) ==> #[trigger] es[j].1 >= score,
        insert_index(es, score) < es.len() ==> es[insert_index(es, score)].1 < score,
    decreases es.len(),
{
    if es.len() > 0 && es[0].1 >= score {
        lemma_insert_index_bounds(es.drop_first(), score);
        assert forall|j: int| 0 <= j < insert_index(es, score) implies #[trigger] es[j].1 >= score by {
            if j > 0 {
                assert(es[j] == es.drop_first()[j - 1]);
            }
        }
    }
}

/// Updating keeps the table well formed, and a score that qualifies is in
/// the table afterwards, as a new entry at `insert_index`.
pub proof fn lemma_update_keeps_table(es: Seq<EntryView>, name: Seq<char>, score: u64)
    requires
        es.len() <= 10,
        descending_view(es),
    ensures
        updated(es, name, score).len() <= 10,
        descending_view(updated(es, name, score)),
        qualifies(es, score) ==> {
            let k = insert_index(es, score);
            0 <= k < updated(es, name, score).len() && updated(es, name, score)[k] == (name, score, true)
        },
{
    if qualifies(es, score) {
        lemma_insert_index_bounds(es, score);
        let k = insert_index(es, score);
        let e = (name, score, true);
        let s = es.insert(k, e);
        assert forall|i: int, j: int| 0 <= i < j < s.len() implies s[i].1 >= s[j].1 by {
            if j < k {
            } else if j == k {
                assert(s[i] == es[i]);
            } else if i == k {
                assert(s[j] == es[j - 1]);
                if k < es.len() {
                    assert(es[k].1 < score);
                    assert(es[k].1 >= es[j - 1].1);
                }
            } else if i < k {
                assert(s[i] == es[i] && s[j] == es[j - 1]);
            } else {
                assert(s[i] == es[i - 1] && s[j] == es[j - 1]);
            }
        }
        if es.len() == 10 {
            assert(score > es.last().1);
            assert(k < 10) by {
                if k == 10 {
                    assert(es[9].1 >= score);
                }
            }
        }
    }
}

/// The sum over the entries of one more than their score.
pub open spec fn table_weight(es: Seq<EntryView>) -> int
    decreases es.len(),
{
    if es.len() == 0 {
        0
    } else {
        table_weight(es.drop_last()) + es.last().1 + 1
    }
}

/// Inserting an entry adds one more than its score to the weight.
proof fn lemma_weight_insert(s: Seq<EntryView>, k: int, e: EntryView)
    requires
        0 <= k <= s.len(),
    ensures
        table_weight(s.insert(k, e)) == table_weight(s) + e.1 + 1,
    decreases s.len(),
{
    let t = s.insert(k, e);
    if k == s.len() {
        assert(t.drop_last() =~= s);
    } else {
        lemma_weight_insert(s.drop_last(), k, e);
        assert(t.drop_last() =~= s.drop_last().insert(k, e));
        assert(t.last() == s.last());
    }
}

/// Offering a place leaves the table as it is when the score does not
/// qualify, and raises its weight when it does: the new entry outweighs
/// the one that falls off the end.
pub proof fn lemma_update_weight(es: Seq<EntryView>, name: Seq<char>, score: u64)
    requires
        es.len() <= 10,
        descending_view(es),
    ensures
        qualifies(es, score) ==> table_weight(updated(es, name, score)) > table_weight(es),
        !qualifies(es, score) ==> updated(es, name, score) == es,
{
    if qualifies(es, score) {
        lemma_insert_index_bounds(es, score);
        let k = insert_index(es, score);
        let e = (name, score, true);
        let s = es.insert(k, e);
        lemma_weight_insert(es, k, e);
        if s.len() > 10 {
            assert(score > es.last().1);
            assert(k < 10) by {
                if k == 10 {
                    assert(es[9].1 >= score);
                }
            }
            assert(s.last() == es.last());
        }
    }
}

// ---------------------------------------------------------------------------
// The highscores file: two lines per entry, the name and then the score.

/// What an entry holds: name, score, and whether it is new.
pub type EntryView = (Seq<char>, u64, bool);

pub open spec fn entries_view(es: Seq<HighscoresEntry>) -> Seq<EntryView> {
    Seq::new(es.len(), |i: int| (es[i].name@, es[i].score, es[i].new))
}

/// The scores do not increase along the table.
pub open spec fn descending_view(es: Seq<EntryView>) -> bool {
    forall|i: int, j: int| 0 <= i < j < es.len() ==> es[i].1 >= es[j].1
}

/// A line without the carriage return before its line feed.
pub open spec fn strip_cr(line: Seq<char>) -> Seq<char> {
    if line.len() > 0 && line.last() == '\r' {
        line.drop_last()
    } else {
        line
    }
}

/// The finished lines of `s` and the unfinished last one.
pub open spec fn lines_split(s: Seq<char>) -> (Seq<Seq<char>>, Seq<char>)
    decreases s.len(),
{
    if s.len() == 0 {
        (Seq::empty(), Seq::empty())
    } else {
        let (done, cur) = lines_split(s.drop_last());
        if s.last() == '\n' {
            (done.push(strip_cr(cur)), Seq::empty())
        } else {
            (done, cur.push(s.last()))
        }
    }
}

/// The lines of a text as `str::lines` yields them: split at `\n` or
/// `\r\n`, the final line ending optional.
pub open spec fn text_lines(s: Seq<char>) -> Seq<Seq<char>> {
    let (done, cur) = lines_split(s);
    if cur.len() > 0 {
        done.push(cur)
    } else {
        done
    }
}

/// The lines that are not empty.
pub open spec fn nonempty(ls: Seq<Seq<char>>) -> Seq<Seq<char>>
    decreases ls.len(),
{
    if ls.len() == 0 {
        Seq::empty()
    } else if ls.last().len() > 0 {
        nonempty(ls.drop_last()).push(ls.last())
    } else {
        nonempty(ls.drop_last())
    }
}

pub open spec fn is_digit(c: char) -> bool {
    '0' <= c && c <= '9'
}

/// The value of a sequence of decimal digits.
pub open spec fn digits_value(s: Seq<char>) -> nat
    decreases s.len(),
{
    if s.len() == 0 {
        0
    } else {
        digits_value(s.drop_last()) * 10 + ((s.last() as int) - ('0' as int)) as nat
    }
}

/// The text after an optional leading `+`.
pub open spec fn unsigned_part(s: Seq<char>) -> Seq<char> {
    if s.len() > 0 && s[0] == '+' {
        s.skip(1)
    } else {
        s
    }
}

/// What `str::parse::<u64>` gives: an optional `+`, then at least one
/// decimal digit and nothing else, of a value that fits in `u64`.
pub open spec fn spec_parse_u64(s: Seq<char>) -> Option<u64> {
    let d = unsigned_part(s);
    if d.len() == 0 || !(forall|i: int| 0 <= i < d.len() ==> is_digit(#[trigger] d[i])) || digits_value(d)
        > u64::MAX {
        None
    } else {
        Some(digits_value(d) as u64)
    }
}

/// The line with the score of entry `i`.
pub open spec fn score_line(ls: Seq<Seq<char>>, i: int) -> Seq<char> {
    ls[2 * i + 1]
}

/// The entries that pairs of lines (name, score) stand for.
pub open spec fn parsed_entries(ls: Seq<Seq<char>>) -> Seq<EntryView> {
    Seq::new((ls.len() / 2) as nat, |i: int| (ls[2 * i], spec_parse_u64(score_line(ls, i)).unwrap(), false))
}

/// The table a highscores file holds, if it is not corrupted: its
/// non-empty lines come in pairs (name, score), at most ten of them, each
/// score parses, and the scores do not increase.
pub open spec fn spec_parse_table(s: Seq<char>) -> Option<Seq<EntryView>> {
    let ls = nonempty(text_lines(s));
    if ls.len() > 20 || ls.len() % 2 == 1 {
        None
    } else if exists|i: int| 0 <= i < ls.len() / 2 && #[trigger] spec_parse_u64(score_line(ls, i)) is None {
        None
    } else {
        let es = parsed_entries(ls);
        if descending_view(es) {
            Some(es)
        } else {
            None
        }
    }
}

/// The text of a highscores file: for each entry, its name and its score,
/// each followed by a line feed.
pub open spec fn table_text(es: Seq<EntryView>) -> Seq<char>
    decreases es.len(),
{
    if es.len() == 0 {
        Seq::empty()
    } else {
        table_text(es.drop_last()) + es.last().0 + seq!['\n'] + decimal(es.last().1 as nat) + seq!['\n']
    }
}

proof fn lemma_digits_value_prefix(d: Seq<char>, i: int)
    requires
        0 <= i <= d.len(),
    ensures
        digits_value(d.take(i)) <= digits_value(d),
    decreases d.len(),
{
    if i < d.len() {
        assert(d.drop_last().take(i) =~= d.take(i));
        lemma_digits_value_prefix(d.drop_last(), i);
    } else {
        assert(d.take(i) =~= d);
    }
}

/// Parses a score like `str::parse::<u64>`.
fn parse_u64(s: &Vec<char>) -> (res: Option<u64>)
    ensures
        res == spec_parse_u64(s@),
{
    let mut start: usize = 0;
    if s.len() > 0 && s[0] == '+' {
        start = 1;
    }
    let ghost d = unsigned_part(s@);
    assert(d =~= s@.skip(start as int));
    if start == s.len() {
        return None;
    }
    let mut acc: u64 = 0;
    let mut overflow = false;
    let mut i = start;
    while i < s.len()
        invariant
            start <= i <= s@.len(),
            d =~= s@.skip(start as int),
            d == unsigned_part(s@),
            forall|k: int| 0 <= k < i - start ==> is_digit(#[trigger] d[k]),
            !overflow ==> acc == digits_value(d.take(i - start)),
            overflow ==> digits_value(d.take(i - start)) > u64::MAX,
        decreases s@.len() - i,
    {
        let c = s[i];
        assert(d[i - start] == c);
        if !('0' <= c && c <= '9') {
            assert(!is_digit(d[i - start]));
            assert(!(forall|q: int| 0 <= q < d.len() ==> is_digit(#[trigger] d[q])));
            return None;
        }
        assert(d.take(i - start + 1).drop_last() =~= d.take(i - start));
        let dv = (c as u32 - '0' as u32) as u64;
        if !overflow {
            if acc > (u64::MAX - dv) / 10 {
                overflow = true;
            } else {
                acc = acc * 10 + dv;
            }
        } else {
            assert(digits_value(d.take(i - start + 1)) >= digits_value(d.take(i - start))) by (nonlinear_arith)
                requires digits_value(d.take(i - start + 1)) == digits_value(d.take(i - start)) * 10 + ((c as int) - ('0' as int)) as nat,
                    '0' <= c;
        }
        i += 1;
    }
    assert(d.take(i - start) =~= d);
    if overflow {
        None
    } else {
        Some(acc)
    }
}

impl Highscores {
    /// Reads the table from the text of a highscores file; `None` if the
    /// file is corrupted. Entries read from the file are not new.
    pub fn parse(content: &str) -> (res: Option<Highscores>)
        ensures
            match spec_parse_table(content@) {
                None => res is None,
                Some(es) => res matches Some(h) && entries_view(h.entries@) == es,
            },
    {
        let chars = chars_of(content);
        // Split into lines.
        let mut done: Vec<Vec<char>> = Vec::new();
        let mut cur: Vec<char> = Vec::new();
        let mut i: usize = 0;
        while i < chars.len()
            invariant
                i <= chars@.len(),
                chars@ == content@,
                lines_split(chars@.take(i as int)) == (Seq::new(done@.len(), |k: int| done@[k]@), cur@),
            decreases chars@.len() - i,
        {
            assert(chars@.take(i + 1).drop_last() =~= chars@.take(i as int));
            let c = chars[i];
            if c == '\n' {
                let ghost old_done = done@;
                let mut line = cur;
                let n = line.len();
                if n > 0 && line[n - 1] == '\r' {
                    line.pop();
                }
                done.push(line);
                cur = Vec::new();
                assert(Seq::new(done@.len(), |k: int| done@[k]@) =~= Seq::new(old_done.len(), |k: int| old_done[k]@).push(done@.last()@));
            } else {
                cur.push(c);
            }
            i += 1;
        }
        assert(chars@.take(i as int) =~= chars@);
        let ghost all = text_lines(content@);
        if cur.len() > 0 {
            done.push(cur);
        }
        let ghost doneview = Seq::new(done@.len(), |k: int| done@[k]@);
        assert(doneview =~= all);
        // Keep the lines that are not empty.
        let mut lines: Vec<Vec<char>> = Vec::new();
        let mut j: usize = 0;
        while j < done.len()
            invariant
                j <= done@.len(),
                doneview == Seq::new(done@.len(), |k: int| done@[k]@),
                Seq::new(lines@.len(), |k: int| lines@[k]@) == nonempty(doneview.take(j as int)),
            decreases done@.len() - j,
        {
            assert(doneview.take(j + 1).drop_last() =~= doneview.take(j as int));
            let ghost old_lines = lines@;
            if done[j].len() > 0 {
                let l = done[j].clone();
                assert(l@ =~= done@[j as int]@);
                lines.push(l);
                assert(Seq::new(lines@.len(), |k: int| lines@[k]@) =~= Seq::new(old_lines.len(), |k: int| old_lines[k]@).push(l@));
            }
            j += 1;
        }
        assert(doneview.take(j as int) =~= doneview);
        let ghost ls = nonempty(all);
        if lines.len() > 2 * HIGHSCORES_STORED || lines.len() % 2 == 1 {
            return None;
        }
        let mut entries: Vec<HighscoresEntry> = Vec::new();
        let mut k: usize = 0;
        while k < lines.len() / 2
            invariant
                lines@.len() <= 20,
                lines@.len() % 2 == 0,
                ls == Seq::new(lines@.len(), |m: int| lines@[m]@),
                ls == nonempty(text_lines(content@)),
                k <= lines@.len() / 2,
                entries@.len() == k,
                forall|m: int| 0 <= m < k ==> spec_parse_u64(#[trigger] score_line(ls, m)) is Some,
                forall|m: int|
                    0 <= m < k ==> (#[trigger] entries@[m]).name@ == ls[2 * m] && entries@[m].score
                        == spec_parse_u64(score_line(ls, m)).unwrap() && !entries@[m].new,
            decreases lines@.len() / 2 - k,
        {
            assert(ls[2 * k + 1] == lines@[2 * k + 1]@);
            assert(ls[2 * k as int] == lines@[2 * k as int]@);
            let score = match parse_u64(&lines[2 * k + 1]) {
                None => {
                    assert(spec_parse_u64(score_line(ls, k as int)) is None);
                    return None;
                },
                Some(v) => v,
            };
            let mut name = String::new();
            let name_chars = &lines[2 * k];
            let mut m: usize = 0;
            while m < name_chars.len()
                invariant
                    m <= name_chars@.len(),
                    name@ == name_chars@.take(m as int),
                decreases name_chars@.len() - m,
            {
                push_char(&mut name, name_chars[m]);
                assert(name_chars@.take(m + 1) =~= name_chars@.take(m as int).push(name_chars@[m as int]));
                m += 1;
            }
            assert(name_chars@.take(m as int) =~= name_chars@);
            entries.push(HighscoresEntry { name, score, new: false });
            k += 1;
        }
        let ghost es = parsed_entries(ls);
        assert(entries_view(entries@) =~= es);
        let mut w: usize = 1;
        while w < entries.len()
            invariant
                1 <= w,
                entries@.len() <= 10,
                entries_view(entries@) == es,
                es == parsed_entries(ls),
                ls == nonempty(text_lines(content@)),
                lines@.len() <= 20,
                lines@.len() % 2 == 0,
                ls == Seq::new(lines@.len(), |m: int| lines@[m]@),
                forall|m: int| 0 <= m < ls.len() / 2 ==> spec_parse_u64(#[trigger] score_line(ls, m)) is Some,
                forall|a: int, b: int| 0 <= a < b < w && b < entries@.len() ==> entries@[a].score >= entries@[b].score,
            decreases entries@.len() - w,
        {
            if entries[w - 1].score < entries[w].score {
                proof {
                    assert(entries_view(entries@)[w - 1].1 == entries@[w - 1].score);
                    assert(entries_view(entries@)[w as int].1 == entries@[w as int].score);
                    assert(!descending_view(es));
                }
                return None;
            }
            w += 1;
        }
        assert(descending_view(es)) by {
            assert forall|a: int, b: int| 0 <= a < b < es.len() implies es[a].1 >= es[b].1 by {
                assert(entries_view(entries@)[a].1 == entries@[a].score);
                assert(entries_view(entries@)[b].1 == entries@[b].score);
            }
        }
        Some(Highscores { entries })
    }

    /// The text of the highscores file for this table.
    pub fn file_content(&self) -> (res: String)
        ensures
            res@ == table_text(entries_view(self.entries@)),
    {
        let mut res = String::new();
        let mut i: usize = 0;
        while i < self.entries.len()
            invariant
                i <= self.entries@.len(),
                res@ == table_text(entries_view(self.entries@).take(i as int)),
            decreases self.entries@.len() - i,
        {
            let ghost es = entries_view(self.entries@);
            assert(es.take(i + 1).drop_last() =~= es.take(i as int));
            res.append(self.entries[i].name.as_str());
            push_char(&mut res, '\n');
            let score = u64_to_string(self.entries[i].score);
            res.append(score.as_str());
            push_char(&mut res, '\n');
            assert(res@ =~= table_text(es.take(i as int)) + es[i as int].0 + seq!['\n'] + decimal(es[i as int].1 as nat) + seq!['\n']);
            i += 1;
        }
        assert(entries_view(self.entries@).take(i as int) =~= entries_view(self.entries@));
        res
    }
}

/// A name that the highscores file can hold on one line: not empty, no line
/// feed in it, and no carriage return at its end.
pub open spec fn name_fits_line(n: Seq<char>) -> bool {
    &&& n.len() > 0
    &&& forall|i: int| 0 <= i < n.len() ==> #[trigger] n[i] != '\n'
    &&& n.last() != '\r'
}

/// The lines of the file for a table: name, then score, for every entry.
pub open spec fn table_lines(es: Seq<EntryView>) -> Seq<Seq<char>>
    decreases es.len(),
{
    if es.len() == 0 {
        Seq::empty()
    } else {
        table_lines(es.drop_last()).push(es.last().0).push(decimal(es.last().1 as nat))
    }
}

proof fn lemma_decimal(n: nat)
    ensures
        decimal(n).len() > 0,
        forall|i: int| 0 <= i < decimal(n).len() ==> is_digit(#[trigger] decimal(n)[i]),
        digits_value(decimal(n)) == n,
    decreases n,
{
    if n >= 10 {
        lemma_decimal(n / 10);
        lemma_digit_char(n % 10);
        let d = decimal(n);
        assert(d.drop_last() =~= decimal(n / 10));
        assert(forall|i: int| 0 <= i < d.len() - 1 ==> d[i] == decimal(n / 10)[i]);
        assert(d.last() == digit_char(n % 10));
        assert(digits_value(d) == digits_value(decimal(n / 10)) * 10 + (n % 10));
        assert((n / 10) * 10 + n % 10 == n) by (nonlinear_arith);
    } else {
        lemma_digit_char(n);
        assert(decimal(n).drop_last() =~= Seq::<char>::empty());
        assert(digits_value(Seq::<char>::empty()) == 0);
        assert(decimal(n).last() == digit_char(n));
        assert(digits_value(decimal(n)) == digits_value(decimal(n).drop_last()) * 10 + n);
    }
}

proof fn lemma_digit_char(d: nat)
    requires
        d < 10,
    ensures
        (digit_char(d) as int) - ('0' as int) == d,
        is_digit(digit_char(d)),
{
}

proof fn lemma_parse_decimal(n: u64)
    ensures
        spec_parse_u64(decimal(n as nat)) == Some(n),
{
    lemma_decimal(n as nat);
    let d = decimal(n as nat);
    assert(is_digit(d[0]));
    assert(unsigned_part(d) == d);
}

proof fn lemma_split_without_newline(s: Seq<char>, t: Seq<char>)
    requires
        forall|i: int| 0 <= i < t.len() ==> #[trigger] t[i] != '\n',
    ensures
        lines_split(s + t) == (lines_split(s).0, lines_split(s).1 + t),
    decreases t.len(),
{
    if t.len() == 0 {
        assert(s + t =~= s);
        assert(lines_split(s).1 + t =~= lines_split(s).1);
    } else {
        let t0 = t.drop_last();
        assert forall|i: int| 0 <= i < t0.len() implies #[trigger] t0[i] != '\n' by {
            assert(t0[i] == t[i]);
        }
        lemma_split_without_newline(s, t0);
        assert((s + t).drop_last() =~= s + t0);
        assert((s + t).last() == t.last());
        assert(t[t.len() - 1] != '\n');
        assert(lines_split(s).1 + t0 + seq![t.last()] =~= lines_split(s).1 + t);
        assert((lines_split(s).1 + t0).push(t.last()) =~= lines_split(s).1 + t);
    }
}

proof fn lemma_split_line(s: Seq<char>, t: Seq<char>)
    requires
        lines_split(s).1.len() == 0,
        forall|i: int| 0 <= i < t.len() ==> #[trigger] t[i] != '\n',
        strip_cr(t) == t,
    ensures
        lines_split(s + t + seq!['\n']) == (lines_split(s).0.push(t), Seq::<char>::empty()),
{
    lemma_split_without_newline(s, t);
    assert((s + t + seq!['\n']).drop_last() =~= s + t);
    assert(lines_split(s).1 + t =~= t);
}

proof fn lemma_table_split(es: Seq<EntryView>)
    requires
        forall|i: int| 0 <= i < es.len() ==> name_fits_line(#[trigger] es[i].0),
    ensures
        lines_split(table_text(es)) == (table_lines(es), Seq::<char>::empty()),
    decreases es.len(),
{
    if es.len() > 0 {
        let e0 = es.drop_last();
        assert forall|i: int| 0 <= i < e0.len() implies name_fits_line(#[trigger] e0[i].0) by {
            assert(e0[i] == es[i]);
        }
        lemma_table_split(e0);
        let name = es.last().0;
        let dec = decimal(es.last().1 as nat);
        assert(name_fits_line(es[es.len() - 1].0));
        lemma_decimal(es.last().1 as nat);
        let a = table_text(e0);
        lemma_split_line(a, name);
        let b = a + name + seq!['\n'];
        assert forall|i: int| 0 <= i < dec.len() implies #[trigger] dec[i] != '\n' by {
            assert(is_digit(dec[i]));
        }
        assert(is_digit(dec[dec.len() - 1]));
        lemma_split_line(b, dec);
        assert(table_text(es) =~= b + dec + seq!['\n']);
    }
}

proof fn lemma_table_lines(es: Seq<EntryView>)
    requires
        forall|i: int| 0 <= i < es.len() ==> name_fits_line(#[trigger] es[i].0),
    ensures
        table_lines(es).len() == 2 * es.len(),
        forall|i: int| 0 <= i < es.len() ==> #[trigger] table_lines(es)[2 * i] == es[i].0,
        forall|i: int| 0 <= i < es.len() ==> #[trigger] table_lines(es)[2 * i + 1] == decimal(es[i].1 as nat),
        nonempty(table_lines(es)) == table_lines(es),
    decreases es.len(),
{
    if es.len() > 0 {
        let e0 = es.drop_last();
        assert forall|i: int| 0 <= i < e0.len() implies name_fits_line(#[trigger] e0[i].0) by {
            assert(e0[i] == es[i]);
        }
        lemma_table_lines(e0);
        lemma_decimal(es.last().1 as nat);
        assert(name_fits_line(es[es.len() - 1].0));
        let l0 = table_lines(e0);
        let l1 = l0.push(es.last().0);
        let l2 = l1.push(decimal(es.last().1 as nat));
        assert(l2.drop_last() == l1);
        assert(l1.drop_last() == l0);
        assert(nonempty(l2) == nonempty(l1).push(l2.last()));
        assert(nonempty(l1) == nonempty(l0).push(l1.last()));
        assert forall|i: int| 0 <= i < es.len() implies #[trigger] l2[2 * i] == es[i].0 by {
            if i < es.len() - 1 {
                assert(l2[2 * i] == l0[2 * i]);
                assert(e0[i] == es[i]);
            }
        }
        assert forall|i: int| 0 <= i < es.len() implies #[trigger] l2[2 * i + 1] == decimal(es[i].1 as nat) by {
            if i < es.len() - 1 {
                assert(l2[2 * i + 1] == l0[2 * i + 1]);
                assert(e0[i] == es[i]);
            }
        }
    }
}

/// Writing a table to the highscores file and reading the file back gives
/// the same table, with no entry marked new, when the table is well formed
/// and every name fits on one line (not empty, no line feed in it, no
/// carriage return at its end).
pub proof fn lemma_file_round_trip(es: Seq<EntryView>)
    requires
        es.len() <= 10,
        descending_view(es),
        forall|i: int| 0 <= i < es.len() ==> name_fits_line(#[trigger] es[i].0),
    ensures
        spec_parse_table(table_text(es)) == Some(Seq::new(es.len(), |i: int| (es[i].0, es[i].1, false))),
{
    lemma_table_split(es);
    lemma_table_lines(es);
    let ls = nonempty(text_lines(table_text(es)));
    assert(text_lines(table_text(es)) == table_lines(es));
    assert(ls == table_lines(es));
    assert(ls.len() == 2 * es.len());
    assert forall|i: int| 0 <= i < ls.len() / 2 implies #[trigger] spec_parse_u64(score_line(ls, i)) == Some(es[i].1) by {
        assert(score_line(ls, i) == decimal(es[i].1 as nat));
        lemma_parse_decimal(es[i].1);
    }
    let want = Seq::new(es.len(), |i: int| (es[i].0, es[i].1, false));
    assert(parsed_entries(ls) =~= want);
}

} // verus!
