use vstd::prelude::*;

use crate::input::PointerButton;
use crate::highscores::{
    descending_view, entries_view, lemma_update_keeps_table, lemma_update_weight, qualifies, table_weight, updated,
    EntryView, Highscores,
};

verus! {

/// The names and scores of a list of results.
pub open spec fn results_view(r: Seq<(String, u64)>) -> Seq<(Seq<char>, u64)> {
    Seq::new(r.len(), |i: int| (r[i].0@, r[i].1))
}

/// Result `i` is listed before result `j`: it has a higher score, or the
/// same score and comes later among the results given.
pub open spec fn ranks_before(r: Seq<(Seq<char>, u64)>, i: int, j: int) -> bool {
    r[i].1 > r[j].1 || (r[i].1 == r[j].1 && i > j)
}

/// `p` lists the first `n` results in ranking order: every entry is one of
/// them, and each ranks before the ones after it (so none comes twice).
pub open spec fn is_ranking(r: Seq<(Seq<char>, u64)>, p: Seq<int>, n: int) -> bool {
    &&& p.len() == n
    &&& forall|k: int| 0 <= k < p.len() ==> 0 <= #[trigger] p[k] < n
    &&& forall|k: int, l: int| 0 <= k < l < p.len() ==> ranks_before(r, #[trigger] p[k], #[trigger] p[l])
}

/// The results listed in the order `p`.
pub open spec fn ranked(r: Seq<(Seq<char>, u64)>, p: Seq<int>) -> Seq<(Seq<char>, u64)> {
    Seq::new(p.len(), |k: int| r[p[k]])
}

/// The results, best score first; of equal scores, the one given later
/// comes first.
pub fn rank_results(results: &Vec<(String, u64)>) -> (res: Vec<(String, u64)>)
    ensures
        exists|p: Seq<int>|
            is_ranking(results_view(results@), p, results@.len() as int) && results_view(res@) == ranked(
                results_view(results@),
                p,
            ),
{
    let ghost r = results_view(results@);
    let mut out: Vec<(String, u64)> = Vec::new();
    let ghost mut p: Seq<int> = Seq::empty();
    let mut i: usize = 0;
    while i < results.len()
        invariant
            i <= results@.len(),
            r == results_view(results@),
            is_ranking(r, p, i as int),
            out@.len() == p.len(),
            results_view(out@) == ranked(r, p),
        decreases results@.len() - i,
    {
        let score = results[i].1;
        // The new result goes before the first one with a score not above it.
        let mut pos: usize = 0;
        while pos < out.len() && out[pos].1 > score
            invariant
                pos <= out@.len(),
                out@.len() == p.len(),
                results_view(out@) == ranked(r, p),
                forall|k: int| 0 <= k < pos ==> #[trigger] r[p[k]].1 > score,
            decreases out@.len() - pos,
        {
            assert(results_view(out@)[pos as int] == r[p[pos as int]]);
            pos += 1;
        }
        proof {
            if pos < out@.len() {
                assert(results_view(out@)[pos as int] == r[p[pos as int]]);
            }
        }
        let name = results[i].0.clone();
        let ghost old_out = out@;
        out.insert(pos, (name, score));
        proof {
            let q = p.insert(pos as int, i as int);
            assert forall|k: int| 0 <= k < q.len() implies 0 <= #[trigger] q[k] < i + 1 by {
                if k < pos {
                    assert(q[k] == p[k]);
                } else if k > pos {
                    assert(q[k] == p[k - 1]);
                }
            }
            assert forall|k: int, l: int| 0 <= k < l < q.len() implies ranks_before(r, #[trigger] q[k], #[trigger] q[l]) by {
                if l < pos {
                    assert(q[k] == p[k] && q[l] == p[l]);
                } else if l == pos {
                    assert(q[k] == p[k]);
                    assert(r[p[k]].1 > score);
                } else if k == pos {
                    assert(q[l] == p[l - 1]);
                    assert(r[p[pos as int]].1 <= score);
                    if l - 1 > pos {
                        assert(ranks_before(r, p[pos as int], p[l - 1]));
                    }
                } else if k < pos {
                    assert(q[k] == p[k] && q[l] == p[l - 1]);
                } else {
                    assert(q[k] == p[k - 1] && q[l] == p[l - 1]);
                }
            }
            assert forall|k: int| 0 <= k < out@.len() implies #[trigger] results_view(out@)[k] == ranked(r, q)[k] by {
                if k < pos {
                    assert(out@[k] == old_out[k]);
                    assert(results_view(old_out)[k] == ranked(r, p)[k]);
                } else if k > pos {
                    assert(out@[k] == old_out[k - 1]);
                    assert(results_view(old_out)[k - 1] == ranked(r, p)[k - 1]);
                }
            }
            assert(results_view(out@) =~= ranked(r, q));
            p = q;
        }
        i += 1;
    }
    out
}

/// The table after every result, in order, is offered a place.
pub open spec fn updated_all(es: Seq<EntryView>, rs: Seq<(Seq<char>, u64)>) -> Seq<EntryView>
    decreases rs.len(),
{
    if rs.len() == 0 {
        es
    } else {
        updated(updated_all(es, rs.drop_last()), rs.last().0, rs.last().1)
    }
}

/// Whether some result, in order, earned a place in the table.
pub open spec fn any_qualified(es: Seq<EntryView>, rs: Seq<(Seq<char>, u64)>) -> bool
    decreases rs.len(),
{
    if rs.len() == 0 {
        false
    } else {
        any_qualified(es, rs.drop_last()) || qualifies(updated_all(es, rs.drop_last()), rs.last().1)
    }
}

/// Some result earned a place when it was offered exactly when one of them,
/// at some position, qualified for the table as it stood then.
proof fn lemma_any_qualified_exists(es: Seq<EntryView>, rs: Seq<(Seq<char>, u64)>)
    ensures
        any_qualified(es, rs) <==> exists|k: int|
            0 <= k < rs.len() && qualifies(updated_all(es, #[trigger] rs.take(k)), rs[k].1),
    decreases rs.len(),
{
    if rs.len() > 0 {
        let d = rs.drop_last();
        lemma_any_qualified_exists(es, d);
        let n = rs.len() - 1;
        assert(rs.take(n) =~= d);
        if any_qualified(es, d) {
            let k = choose|k: int| 0 <= k < d.len() && qualifies(updated_all(es, #[trigger] d.take(k)), d[k].1);
            assert(rs.take(k) =~= d.take(k));
        }
        if exists|k: int| 0 <= k < rs.len() && qualifies(updated_all(es, #[trigger] rs.take(k)), rs[k].1) {
            let k = choose|k: int| 0 <= k < rs.len() && qualifies(updated_all(es, #[trigger] rs.take(k)), rs[k].1);
            if k < n {
                assert(rs.take(k) =~= d.take(k));
            }
        }
    }
}

/// Offering results keeps the table well formed; it leaves it as it is
/// when none qualifies, and raises its weight when one does.
proof fn lemma_updated_all_weight(es: Seq<EntryView>, rs: Seq<(Seq<char>, u64)>)
    requires
        es.len() <= 10,
        descending_view(es),
    ensures
        updated_all(es, rs).len() <= 10,
        descending_view(updated_all(es, rs)),
        table_weight(updated_all(es, rs)) >= table_weight(es),
        any_qualified(es, rs) ==> table_weight(updated_all(es, rs)) > table_weight(es),
        !any_qualified(es, rs) ==> updated_all(es, rs) == es,
    decreases rs.len(),
{
    if rs.len() > 0 {
        let d = rs.drop_last();
        lemma_updated_all_weight(es, d);
        let p = updated_all(es, d);
        lemma_update_keeps_table(p, rs.last().0, rs.last().1);
        lemma_update_weight(p, rs.last().0, rs.last().1);
    }
}

/// The summary shows the highscores table exactly when the results changed
/// it, which is exactly when some result, not only the last one offered,
/// earned a place in the table as it stood when that result was offered.
pub proof fn lemma_summary_shows_changed_table(s: Summary, before: Highscores, after: Highscores)
    requires
        before.wf(),
        entries_view(after.entries@) == updated_all(entries_view(before.entries@), results_view(s.results@)),
        s.show_highscores == any_qualified(entries_view(before.entries@), results_view(s.results@)),
    ensures
        s.show_highscores <==> entries_view(after.entries@) != entries_view(before.entries@),
        s.show_highscores <==> exists|k: int|
            0 <= k < s.results@.len() && qualifies(
                updated_all(entries_view(before.entries@), #[trigger] results_view(s.results@).take(k)),
                s.results@[k].1,
            ),
{
    let es = entries_view(before.entries@);
    let rs = results_view(s.results@);
    lemma_updated_all_weight(es, rs);
    lemma_any_qualified_exists(es, rs);
    if exists|k: int| 0 <= k < rs.len() && qualifies(updated_all(es, #[trigger] rs.take(k)), rs[k].1) {
        let k = choose|k: int| 0 <= k < rs.len() && qualifies(updated_all(es, #[trigger] rs.take(k)), rs[k].1);
        assert(rs[k].1 == s.results@[k].1);
    }
    if exists|k: int| 0 <= k < s.results@.len() && qualifies(updated_all(es, #[trigger] rs.take(k)), s.results@[k].1) {
        let k = choose|k: int| 0 <= k < s.results@.len() && qualifies(updated_all(es, #[trigger] rs.take(k)), s.results@[k].1);
        assert(rs[k].1 == s.results@[k].1);
    }
}

/// The screen after a game: the results, and the highscores table when
/// the game changed it.
pub struct Summary {
    /// The results, best first.
    pub results: Vec<(String, u64)>,
    /// The new highscores table is shown (before the results).
    pub show_highscores: bool,
    pub clicking: bool,
    pub finished: bool,
}

impl Summary {
    /// Ranks the results and offers each of them, best first, a place in
    /// the highscores table.
    pub fn new(results: Vec<(String, u64)>, highscores: &mut Highscores) -> (s: Summary)
        ensures
            exists|p: Seq<int>|
                is_ranking(results_view(results@), p, results@.len() as int) && results_view(s.results@)
                    == ranked(results_view(results@), p),
            entries_view(final(highscores).entries@) == updated_all(
                entries_view(old(highscores).entries@),
                results_view(s.results@),
            ),
            s.show_highscores == any_qualified(entries_view(old(highscores).entries@), results_view(s.results@)),
            old(highscores).wf() ==> final(highscores).wf(),
            !s.clicking,
            !s.finished,
    {
        let ranked_results = rank_results(&results);
        let ghost es0 = entries_view(highscores.entries@);
        let ghost rs = results_view(ranked_results@);
        let mut changed = false;
        let mut i: usize = 0;
        while i < ranked_results.len()
            invariant
                i <= ranked_results@.len(),
                rs == results_view(ranked_results@),
                entries_view(highscores.entries@) == updated_all(es0, rs.take(i as int)),
                changed == any_qualified(es0, rs.take(i as int)),
                old(highscores).wf() ==> highscores.wf(),
                es0 == entries_view(old(highscores).entries@),
            decreases ranked_results@.len() - i,
        {
            assert(rs.take(i + 1).drop_last() =~= rs.take(i as int));
            let name = ranked_results[i].0.clone();
            let ghost before = entries_view(highscores.entries@);
            proof {
                if old(highscores).wf() {
                    lemma_update_keeps_table(before, name@, ranked_results[i as int].1);
                }
            }
            let q = highscores.update(name, ranked_results[i].1);
            changed = q || changed;
            i += 1;
        }
        assert(rs.take(i as int) =~= rs);
        Summary { results: ranked_results, show_highscores: changed, clicking: false, finished: false }
    }

    pub fn is_finished(&self) -> (res: bool)
        ensures
            res == self.finished,
    {
        self.finished
    }

    /// Pressing the left button starts a click.
    pub fn mouse_button_down_event(&mut self, button: PointerButton)
        ensures
            final(self).clicking == (old(self).clicking || button == PointerButton::Left),
            final(self).results == old(self).results,
            final(self).show_highscores == old(self).show_highscores,
            final(self).finished == old(self).finished,
    {
        if button != PointerButton::Left {
            return;
        }
        self.clicking = true;
    }

    /// Releasing the left button ends a click: the first click hides the
    /// highscores table (if shown), the next one finishes the summary.
    pub fn mouse_button_up_event(&mut self, button: PointerButton)
        ensures
            button != PointerButton::Left ==> *final(self) == *old(self),
            button == PointerButton::Left ==> {
                &&& !final(self).clicking
                &&& final(self).results == old(self).results
                &&& final(self).show_highscores == (old(self).show_highscores && !old(self).clicking)
                &&& final(self).finished == (old(self).finished || (old(self).clicking
                    && !old(self).show_highscores))
            },
    {
        if button != PointerButton::Left {
            return;
        }
        if self.clicking {
            if self.show_highscores {
                self.show_highscores = false;
            } else {
                self.finished = true;
            }
        }
        self.clicking = false;
    }
}

} // verus!
