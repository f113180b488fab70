//! Counter store: the per-guild scoreboard of invocation counts and the
//! per-guild alias map.
//!
//! Counts are auxiliary, rebuildable state: the resolver bumps the count
//! of the name that produced a reply, `command_delete` forgets a name, and
//! `command_rank` reads the highest counts back in descending order.
//! Aliases map a source name to a destination name; the map is per guild
//! and a source holds at most one destination.

use vstd::prelude::*;

use crate::models::str_eq;

verus! {

broadcast use vstd::seq_lib::group_seq_lib_default;

/// Mathematical view of one scoreboard entry.
pub ghost struct ScoreView {
    pub guild_id: Seq<char>,
    pub name: Seq<char>,
    pub count: u64,
}

/// Mathematical view of one alias entry.
pub ghost struct AliasView {
    pub guild_id: Seq<char>,
    pub src: Seq<char>,
    pub dst: Seq<char>,
}

struct Score {
    guild_id: String,
    name: String,
    count: u64,
}

impl View for Score {
    type V = ScoreView;

    closed spec fn view(&self) -> ScoreView {
        ScoreView { guild_id: self.guild_id@, name: self.name@, count: self.count }
    }
}

struct Alias {
    guild_id: String,
    src: String,
    dst: String,
}

impl View for Alias {
    type V = AliasView;

    closed spec fn view(&self) -> AliasView {
        AliasView { guild_id: self.guild_id@, src: self.src@, dst: self.dst@ }
    }
}

/// Mathematical view of the counter store: scoreboard entries and alias
/// entries, each in insertion order.
pub ghost struct CounterStoreView {
    pub scores: Seq<ScoreView>,
    pub aliases: Seq<AliasView>,
}

/// The counter store itself.
pub struct CounterStore {
    scores: Vec<Score>,
    aliases: Vec<Alias>,
}

/// Does scoreboard entry `e` count the `(guild, name)` pair?
pub open spec fn score_matches(e: ScoreView, g: Seq<char>, n: Seq<char>) -> bool {
    e.guild_id == g && e.name == n
}

/// Is there a scoreboard entry for `(guild, name)`?
pub open spec fn has_score(s: Seq<ScoreView>, g: Seq<char>, n: Seq<char>) -> bool {
    exists|i: int| 0 <= i < s.len() && #[trigger] score_matches(s[i], g, n)
}

/// The count recorded for `(guild, name)`; 0 when no entry exists.
pub open spec fn score_count(s: Seq<ScoreView>, g: Seq<char>, n: Seq<char>) -> u64 {
    if has_score(s, g, n) {
        let i = choose|i: int| 0 <= i < s.len() && #[trigger] score_matches(s[i], g, n);
        s[i].count
    } else {
        0
    }
}

/// A count after one more invocation; the increment saturates at the
/// machine bound instead of wrapping.
pub open spec fn incr64(c: u64) -> u64 {
    if c == u64::MAX {
        c
    } else {
        (c + 1) as u64
    }
}

/// How one `incr` changes the scoreboard: the entry of `(guild, name)` is
/// bumped in place, or created at count 1 if absent.
pub open spec fn scores_bumped(
    before: Seq<ScoreView>,
    after: Seq<ScoreView>,
    g: Seq<char>,
    n: Seq<char>,
) -> bool {
    if has_score(before, g, n) {
        exists|i: int|
            0 <= i < before.len() && #[trigger] score_matches(before[i], g, n) && after
                == before.update(
                i,
                ScoreView { guild_id: before[i].guild_id, name: before[i].name, count: incr64(before[i].count) },
            )
    } else {
        after == before.push(ScoreView { guild_id: g, name: n, count: 1u64 })
    }
}

/// How one `forget` changes the scoreboard: the entry of `(guild, name)`
/// is removed; forgetting an absent entry changes nothing.
pub open spec fn scores_forgotten(
    before: Seq<ScoreView>,
    after: Seq<ScoreView>,
    g: Seq<char>,
    n: Seq<char>,
) -> bool {
    if has_score(before, g, n) {
        exists|i: int|
            0 <= i < before.len() && #[trigger] score_matches(before[i], g, n) && after
                == before.remove(i)
    } else {
        after == before
    }
}

/// Does alias entry `a` map `src` in `guild`?
pub open spec fn alias_matches(a: AliasView, g: Seq<char>, src: Seq<char>) -> bool {
    a.guild_id == g && a.src == src
}

/// Is `src` aliased in `guild`?
pub open spec fn has_alias(s: Seq<AliasView>, g: Seq<char>, src: Seq<char>) -> bool {
    exists|i: int| 0 <= i < s.len() && #[trigger] alias_matches(s[i], g, src)
}

/// The destination that `src` maps to in `guild`; meaningful only when
/// `has_alias` holds.
pub open spec fn alias_dst(s: Seq<AliasView>, g: Seq<char>, src: Seq<char>) -> Seq<char> {
    let i = choose|i: int| 0 <= i < s.len() && #[trigger] alias_matches(s[i], g, src);
    s[i].dst
}

/// How one `alias_set` changes the alias map: the entry of `(guild, src)`
/// is overwritten in place, or appended if absent.
pub open spec fn aliases_set(
    before: Seq<AliasView>,
    after: Seq<AliasView>,
    g: Seq<char>,
    src: Seq<char>,
    dst: Seq<char>,
) -> bool {
    if has_alias(before, g, src) {
        exists|i: int|
            0 <= i < before.len() && #[trigger] alias_matches(before[i], g, src) && after
                == before.update(
                i,
                AliasView { guild_id: before[i].guild_id, src: before[i].src, dst: dst },
            )
    } else {
        after == before.push(AliasView { guild_id: g, src: src, dst: dst })
    }
}

/// How one `alias_delete` changes the alias map: the entry of
/// `(guild, src)` is removed; deleting an absent entry changes nothing.
pub open spec fn aliases_removed(
    before: Seq<AliasView>,
    after: Seq<AliasView>,
    g: Seq<char>,
    src: Seq<char>,
) -> bool {
    if has_alias(before, g, src) {
        exists|i: int|
            0 <= i < before.len() && #[trigger] alias_matches(before[i], g, src) && after
                == before.remove(i)
    } else {
        after == before
    }
}

/// At most one scoreboard entry per `(guild, name)` pair.
pub open spec fn scores_unique(s: Seq<ScoreView>) -> bool {
    forall|i: int, j: int|
        #![trigger s[i], s[j]]
        0 <= i < j < s.len() ==> !(s[i].guild_id == s[j].guild_id && s[i].name == s[j].name)
}

/// At most one alias entry per `(guild, src)` pair.
pub open spec fn aliases_unique(s: Seq<AliasView>) -> bool {
    forall|i: int, j: int|
        #![trigger s[i], s[j]]
        0 <= i < j < s.len() ==> !(s[i].guild_id == s[j].guild_id && s[i].src == s[j].src)
}

/// The `(name, count)` pairs of one guild's scoreboard, in insertion
/// order.
pub open spec fn guild_pairs(s: Seq<ScoreView>, g: Seq<char>) -> Seq<(Seq<char>, u64)> {
    s.filter((|e: ScoreView| e.guild_id == g)).map_values((|e: ScoreView| (e.name, e.count)))
}

/// The views of the `(name, count)` pairs a scoreboard read returns.
pub open spec fn pair_views(v: Seq<(String, u64)>) -> Seq<(Seq<char>, u64)> {
    v.map_values(|p: (String, u64)| (p.0@, p.1))
}

proof fn lemma_unique_update_score(before: Seq<ScoreView>, i: int, e: ScoreView)
    requires
        scores_unique(before),
        0 <= i < before.len(),
        e.guild_id == before[i].guild_id,
        e.name == before[i].name,
    ensures
        scores_unique(before.update(i, e)),
{
    let after = before.update(i, e);
    assert forall|p: int, q: int|
        0 <= p < q < after.len() implies !((#[trigger] after[p]).guild_id == (#[trigger] after[q]).guild_id
        && after[p].name == after[q].name) by {
        assert(after[p].guild_id == before[p].guild_id && after[p].name == before[p].name);
        assert(after[q].guild_id == before[q].guild_id && after[q].name == before[q].name);
        assert(!(before[p].guild_id == before[q].guild_id && before[p].name == before[q].name));
    }
}

proof fn lemma_unique_push_score(before: Seq<ScoreView>, g: Seq<char>, n: Seq<char>, e: ScoreView)
    requires
        scores_unique(before),
        !has_score(before, g, n),
        e.guild_id == g,
        e.name == n,
    ensures
        scores_unique(before.push(e)),
{
    let after = before.push(e);
    assert forall|p: int, q: int|
        0 <= p < q < after.len() implies !((#[trigger] after[p]).guild_id == (#[trigger] after[q]).guild_id
        && after[p].name == after[q].name) by {
        if q < before.len() {
            assert(!(before[p].guild_id == before[q].guild_id && before[p].name == before[q].name));
        } else {
            assert(after[q] == e);
            assert(!score_matches(before[p], g, n));
        }
    }
}

proof fn lemma_unique_update_alias(before: Seq<AliasView>, i: int, a: AliasView)
    requires
        aliases_unique(before),
        0 <= i < before.len(),
        a.guild_id == before[i].guild_id,
        a.src == before[i].src,
    ensures
        aliases_unique(before.update(i, a)),
{
    let after = before.update(i, a);
    assert forall|p: int, q: int|
        0 <= p < q < after.len() implies !((#[trigger] after[p]).guild_id == (#[trigger] after[q]).guild_id
        && after[p].src == after[q].src) by {
        assert(after[p].guild_id == before[p].guild_id && after[p].src == before[p].src);
        assert(after[q].guild_id == before[q].guild_id && after[q].src == before[q].src);
        assert(!(before[p].guild_id == before[q].guild_id && before[p].src == before[q].src));
    }
}

proof fn lemma_unique_push_alias(before: Seq<AliasView>, g: Seq<char>, s: Seq<char>, a: AliasView)
    requires
        aliases_unique(before),
        !has_alias(before, g, s),
        a.guild_id == g,
        a.src == s,
    ensures
        aliases_unique(before.push(a)),
{
    let after = before.push(a);
    assert forall|p: int, q: int|
        0 <= p < q < after.len() implies !((#[trigger] after[p]).guild_id == (#[trigger] after[q]).guild_id
        && after[p].src == after[q].src) by {
        if q < before.len() {
            assert(!(before[p].guild_id == before[q].guild_id && before[p].src == before[q].src));
        } else {
            assert(after[q] == a);
            assert(!alias_matches(before[p], g, s));
        }
    }
}

/// What a scoreboard read returns: `r` holds `min(k, |pairs|)` of the
/// guild's `(name, count)` pairs, counts descending, no name twice, and no
/// pair left out that outranks one taken. Ties may come out in any order.
pub open spec fn is_top_of(r: Seq<(Seq<char>, u64)>, pairs: Seq<(Seq<char>, u64)>, k: int) -> bool {
    &&& r.len() == if pairs.len() <= k {
        pairs.len() as int
    } else {
        k
    }
    &&& (forall|i: int, j: int| #![trigger r[i], r[j]] 0 <= i < j < r.len() ==> r[i].1 >= r[j].1)
    &&& (forall|i: int| 0 <= i < r.len() ==> pairs.contains(#[trigger] r[i]))
    &&& (forall|i: int, j: int| #![trigger r[i], r[j]] 0 <= i < j < r.len() ==> r[i].0 != r[j].0)
    &&& (forall|i: int|
        0 <= i < pairs.len() ==> r.contains(#[trigger] pairs[i]) || (forall|j: int|
            0 <= j < r.len() ==> (#[trigger] r[j]).1 >= pairs[i].1))
    &&& (pairs.len() <= k ==> forall|i: int| 0 <= i < pairs.len() ==> r.contains(#[trigger] pairs[i]))
}

/// In a well-formed scoreboard, one guild's pairs never repeat a name.
proof fn lemma_guild_pairs_distinct(s: Seq<ScoreView>, g: Seq<char>)
    requires
        scores_unique(s),
    ensures
        forall|p: int, q: int|
            #![trigger guild_pairs(s, g)[p], guild_pairs(s, g)[q]]
            0 <= p < q < guild_pairs(s, g).len() ==> guild_pairs(s, g)[p].0 != guild_pairs(
                s,
                g,
            )[q].0,
    decreases s.len(),
{
    reveal(Seq::filter);
    let pred = |e: ScoreView| e.guild_id == g;
    let gp = guild_pairs(s, g);
    if s.len() > 0 {
        let front = s.drop_last();
        assert(scores_unique(front)) by {
            assert forall|p: int, q: int|
                #![trigger front[p], front[q]]
                0 <= p < q < front.len() implies !(front[p].guild_id == front[q].guild_id
                && front[p].name == front[q].name) by {
                assert(front[p] == s[p] && front[q] == s[q]);
            }
        }
        lemma_guild_pairs_distinct(front, g);
        if pred(s.last()) {
            assert(s.filter(pred) == front.filter(pred).push(s.last()));
            assert forall|p: int, q: int|
                #![trigger gp[p], gp[q]]
                0 <= p < q < gp.len() implies gp[p].0 != gp[q].0 by {
                let ff = front.filter(pred);
                if q < ff.len() {
                    assert(gp[p] == guild_pairs(front, g)[p]);
                    assert(gp[q] == guild_pairs(front, g)[q]);
                } else {
                    assert(gp[q] == (s.last().name, s.last().count));
                    assert(pred(ff[p]));
                    ff.lemma_index_contains(p);
                    front.lemma_filter_contains_rev(pred, ff[p]);
                    let w = choose|w: int| 0 <= w < front.len() && front[w] == ff[p];
                    assert(s[w] == ff[p]);
                    assert(!(s[w].guild_id == s[s.len() - 1].guild_id && s[w].name == s[s.len()
                        - 1].name));
                    assert(gp[p] == (ff[p].name, ff[p].count));
                }
            }
        } else {
            assert(s.filter(pred) == front.filter(pred));
            assert forall|p: int, q: int|
                #![trigger gp[p], gp[q]]
                0 <= p < q < gp.len() implies gp[p].0 != gp[q].0 by {
                assert(gp[p] == guild_pairs(front, g)[p]);
                assert(gp[q] == guild_pairs(front, g)[q]);
            }
        }
    }
}

impl View for CounterStore {
    type V = CounterStoreView;

    closed spec fn view(&self) -> CounterStoreView {
        CounterStoreView {
            scores: self.scores@.map_values(|e: Score| e@),
            aliases: self.aliases@.map_values(|a: Alias| a@),
        }
    }
}

impl CounterStore {
    /// Well-formedness: one entry per key on both sides.
    pub open spec fn wf(&self) -> bool {
        scores_unique(self@.scores) && aliases_unique(self@.aliases)
    }

    pub fn new() -> (s: CounterStore)
        ensures
            s.wf(),
            s@.scores == Seq::<ScoreView>::empty(),
            s@.aliases == Seq::<AliasView>::empty(),
    {
        let s = CounterStore { scores: Vec::new(), aliases: Vec::new() };
        proof {
            assert(s@.scores =~= Seq::<ScoreView>::empty());
            assert(s@.aliases =~= Seq::<AliasView>::empty());
        }
        s
    }

    /// Index of the scoreboard entry of `(guild, name)`, if one exists.
    fn find_score(&self, guild_id: &str, command_key: &str) -> (r: Option<usize>)
        ensures
            match r {
                Some(i) => i < self@.scores.len() && score_matches(
                    self@.scores[i as int],
                    guild_id@,
                    command_key@,
                ) && forall|j: int|
                    0 <= j < i ==> !(#[trigger] score_matches(
                        self@.scores[j],
                        guild_id@,
                        command_key@,
                    )),
                None => !has_score(self@.scores, guild_id@, command_key@),
            },
    {
        let ghost vs = self@.scores;
        let mut i: usize = 0;
        while i < self.scores.len()
            invariant
                i <= self.scores.len(),
                vs == self@.scores,
                vs.len() == self.scores@.len(),
                forall|j: int|
                    0 <= j < i ==> !(#[trigger] score_matches(vs[j], guild_id@, command_key@)),
            decreases self.scores@.len() - i,
        {
            let e = &self.scores[i];
            proof {
                assert(vs[i as int] == e@);
            }
            let g_ok = str_eq(e.guild_id.as_str(), guild_id);
            let n_ok = str_eq(e.name.as_str(), command_key);
            if g_ok && n_ok {
                proof {
                    assert(score_matches(vs[i as int], guild_id@, command_key@));
                }
                return Some(i);
            }
            i = i + 1;
        }
        proof {
            if has_score(vs, guild_id@, command_key@) {
                let w = choose|w: int|
                    0 <= w < vs.len() && #[trigger] score_matches(vs[w], guild_id@, command_key@);
                assert(!score_matches(vs[w], guild_id@, command_key@));
            }
        }
        None
    }

    /// Index of the alias entry of `(guild, src)`, if one exists.
    fn find_alias(&self, guild_id: &str, src: &str) -> (r: Option<usize>)
        ensures
            match r {
                Some(i) => i < self@.aliases.len() && alias_matches(
                    self@.aliases[i as int],
                    guild_id@,
                    src@,
                ),
                None => !has_alias(self@.aliases, guild_id@, src@),
            },
    {
        let ghost va = self@.aliases;
        let mut i: usize = 0;
        while i < self.aliases.len()
            invariant
                i <= self.aliases.len(),
                va == self@.aliases,
                va.len() == self.aliases@.len(),
                forall|j: int| 0 <= j < i ==> !(#[trigger] alias_matches(va[j], guild_id@, src@)),
            decreases self.aliases@.len() - i,
        {
            let a = &self.aliases[i];
            proof {
                assert(va[i as int] == a@);
            }
            let g_ok = str_eq(a.guild_id.as_str(), guild_id);
            let s_ok = str_eq(a.src.as_str(), src);
            if g_ok && s_ok {
                proof {
                    assert(alias_matches(va[i as int], guild_id@, src@));
                }
                return Some(i);
            }
            i = i + 1;
        }
        proof {
            if has_alias(va, guild_id@, src@) {
                let w = choose|w: int|
                    0 <= w < va.len() && #[trigger] alias_matches(va[w], guild_id@, src@);
                assert(!alias_matches(va[w], guild_id@, src@));
            }
        }
        None
    }

    /// Add 1 to the count of `(guild, name)`, creating the entry at 1 if
    /// absent. The addition saturates at the machine bound.
    pub fn command_incr(&mut self, guild_id: &str, command_key: &str)
        requires
            old(self).wf(),
        ensures
            final(self).wf(),
            scores_bumped(old(self)@.scores, final(self)@.scores, guild_id@, command_key@),
            final(self)@.aliases == old(self)@.aliases,
    {
        let ghost before = self@.scores;
        match self.find_score(guild_id, command_key) {
            Some(i) => {
                let e = self.scores.remove(i);
                let nc = if e.count == u64::MAX {
                    e.count
                } else {
                    e.count + 1
                };
                let e2 = Score { guild_id: e.guild_id, name: e.name, count: nc };
                self.scores.insert(i, e2);
                proof {
                    assert(score_matches(before[i as int], guild_id@, command_key@));
                    assert(self@.scores =~= before.update(
                        i as int,
                        ScoreView {
                            guild_id: before[i as int].guild_id,
                            name: before[i as int].name,
                            count: incr64(before[i as int].count),
                        },
                    ));
                    lemma_unique_update_score(
                        before,
                        i as int,
                        ScoreView {
                            guild_id: before[i as int].guild_id,
                            name: before[i as int].name,
                            count: incr64(before[i as int].count),
                        },
                    );
                    assert(self@.aliases =~= old(self)@.aliases);
                }
            },
            None => {
                self.scores.push(
                    Score { guild_id: guild_id.to_owned(), name: command_key.to_owned(), count: 1 },
                );
                proof {
                    assert(self@.scores =~= before.push(
                        ScoreView { guild_id: guild_id@, name: command_key@, count: 1u64 },
                    ));
                    lemma_unique_push_score(
                        before,
                        guild_id@,
                        command_key@,
                        ScoreView { guild_id: guild_id@, name: command_key@, count: 1u64 },
                    );
                    assert(self@.aliases =~= old(self)@.aliases);
                }
            },
        }
    }

    /// Remove the counter entry of `(guild, name)`. Idempotent: removing
    /// an absent entry is a successful no-op. Afterwards the guild's
    /// scoreboard holds no entry for the name.
    pub fn command_delete(&mut self, guild_id: &str, command_key: &str)
        requires
            old(self).wf(),
        ensures
            final(self).wf(),
            scores_forgotten(old(self)@.scores, final(self)@.scores, guild_id@, command_key@),
            !has_score(final(self)@.scores, guild_id@, command_key@),
            final(self)@.aliases == old(self)@.aliases,
    {
        let ghost before = self@.scores;
        match self.find_score(guild_id, command_key) {
            Some(i) => {
                let _ = self.scores.remove(i);
                proof {
                    assert(score_matches(before[i as int], guild_id@, command_key@));
                    assert(self@.scores =~= before.remove(i as int));
                    assert(self@.aliases =~= old(self)@.aliases);
                    let after = self@.scores;
                    assert forall|j: int| 0 <= j < after.len() implies !(#[trigger] score_matches(
                        after[j],
                        guild_id@,
                        command_key@,
                    )) by {
                        if j < i {
                            assert(after[j] == before[j]);
                        } else {
                            assert(after[j] == before[j + 1]);
                        }
                    }
                    if has_score(after, guild_id@, command_key@) {
                        let w = choose|w: int|
                            0 <= w < after.len() && #[trigger] score_matches(
                                after[w],
                                guild_id@,
                                command_key@,
                            );
                        assert(false);
                    }
                }
            },
            None => {
                proof {
                    assert(self@.scores =~= before);
                }
            },
        }
    }

    /// Map `src` to `dst` in `guild`, overwriting any prior destination.
    /// Returns 1 when the entry is new, 0 when an old one was overwritten.
    pub fn add_alias(&mut self, guild_id: &str, src: &str, dst: &str) -> (r: u64)
        requires
            old(self).wf(),
        ensures
            final(self).wf(),
            aliases_set(old(self)@.aliases, final(self)@.aliases, guild_id@, src@, dst@),
            final(self)@.scores == old(self)@.scores,
            r == if has_alias(old(self)@.aliases, guild_id@, src@) {
                0u64
            } else {
                1u64
            },
    {
        let ghost before = self@.aliases;
        match self.find_alias(guild_id, src) {
            Some(i) => {
                let a = self.aliases.remove(i);
                let a2 = Alias { guild_id: a.guild_id, src: a.src, dst: dst.to_owned() };
                self.aliases.insert(i, a2);
                proof {
                    assert(alias_matches(before[i as int], guild_id@, src@));
                    assert(self@.aliases =~= before.update(
                        i as int,
                        AliasView {
                            guild_id: before[i as int].guild_id,
                            src: before[i as int].src,
                            dst: dst@,
                        },
                    ));
                    lemma_unique_update_alias(
                        before,
                        i as int,
                        AliasView {
                            guild_id: before[i as int].guild_id,
                            src: before[i as int].src,
                            dst: dst@,
                        },
                    );
                    assert(self@.scores =~= old(self)@.scores);
                }
                0
            },
            None => {
                self.aliases.push(
                    Alias { guild_id: guild_id.to_owned(), src: src.to_owned(), dst: dst.to_owned() },
                );
                proof {
                    assert(self@.aliases =~= before.push(
                        AliasView { guild_id: guild_id@, src: src@, dst: dst@ },
                    ));
                    lemma_unique_push_alias(
                        before,
                        guild_id@,
                        src@,
                        AliasView { guild_id: guild_id@, src: src@, dst: dst@ },
                    );
                    assert(self@.scores =~= old(self)@.scores);
                }
                1
            },
        }
    }

    /// The destination that `src` maps to in `guild`, if any. `None`
    /// means the mapping is absent; it is not an error.
    pub fn retrieve_alias(&self, guild_id: &str, src: &str) -> (r: Option<String>)
        requires
            self.wf(),
        ensures
            match r {
                Some(d) => has_alias(self@.aliases, guild_id@, src@) && d@ == alias_dst(
                    self@.aliases,
                    guild_id@,
                    src@,
                ),
                None => !has_alias(self@.aliases, guild_id@, src@),
            },
    {
        match self.find_alias(guild_id, src) {
            Some(i) => {
                let d = self.aliases[i].dst.clone();
                proof {
                    assert(alias_matches(self@.aliases[i as int], guild_id@, src@));
                    let w = choose|w: int|
                        0 <= w < self@.aliases.len() && #[trigger] alias_matches(
                            self@.aliases[w],
                            guild_id@,
                            src@,
                        );
                    if w != i {
                        assert(self@.aliases[w].guild_id == self@.aliases[i as int].guild_id);
                        assert(false);
                    }
                }
                Some(d)
            },
            None => None,
        }
    }

    /// Drop the alias of `(guild, src)`. Idempotent. Returns 1 when an
    /// entry was removed, 0 when there was none.
    pub fn remove_alias(&mut self, guild_id: &str, src: &str) -> (r: u64)
        requires
            old(self).wf(),
        ensures
            final(self).wf(),
            aliases_removed(old(self)@.aliases, final(self)@.aliases, guild_id@, src@),
            !has_alias(final(self)@.aliases, guild_id@, src@),
            final(self)@.scores == old(self)@.scores,
            r == if has_alias(old(self)@.aliases, guild_id@, src@) {
                1u64
            } else {
                0u64
            },
    {
        let ghost before = self@.aliases;
        match self.find_alias(guild_id, src) {
            Some(i) => {
                let _ = self.aliases.remove(i);
                proof {
                    assert(alias_matches(before[i as int], guild_id@, src@));
                    assert(self@.aliases =~= before.remove(i as int));
                    assert(self@.scores =~= old(self)@.scores);
                    let after = self@.aliases;
                    assert forall|j: int| 0 <= j < after.len() implies !(#[trigger] alias_matches(
                        after[j],
                        guild_id@,
                        src@,
                    )) by {
                        if j < i {
                            assert(after[j] == before[j]);
                        } else {
                            assert(after[j] == before[j + 1]);
                        }
                    }
                    if has_alias(after, guild_id@, src@) {
                        let w = choose|w: int|
                            0 <= w < after.len() && #[trigger] alias_matches(
                                after[w],
                                guild_id@,
                                src@,
                            );
                        assert(false);
                    }
                }
                1
            },
            None => 0,
        }
    }

    /// The guild's `(name, count)` pairs, in insertion order.
    fn collect_guild(&self, guild_id: &str) -> (r: Vec<(String, u64)>)
        ensures
            pair_views(r@) == guild_pairs(self@.scores, guild_id@),
    {
        let ghost vs = self@.scores;
        let ghost pred = |e: ScoreView| e.guild_id == guild_id@;
        let mut out: Vec<(String, u64)> = Vec::new();
        let mut i: usize = 0;
        proof {
            assert(pair_views(out@) =~= guild_pairs(vs.take(0), guild_id@));
        }
        while i < self.scores.len()
            invariant
                i <= self.scores.len(),
                vs == self@.scores,
                vs.len() == self.scores@.len(),
                pred == (|e: ScoreView| e.guild_id == guild_id@),
                pair_views(out@) == guild_pairs(vs.take(i as int), guild_id@),
            decreases self.scores@.len() - i,
        {
            let e = &self.scores[i];
            proof {
                assert(vs[i as int] == e@);
                vs.lemma_take_succ_push(i as int);
                vs.take(i as int).lemma_filter_push(vs[i as int], pred);
            }
            let g_ok = str_eq(e.guild_id.as_str(), guild_id);
            if g_ok {
                let ghost prev = out@;
                let item = (e.name.clone(), e.count);
                let ghost iv = (item.0@, item.1);
                out.push(item);
                proof {
                    assert(pair_views(out@) =~= pair_views(prev).push(iv));
                    assert(pair_views(out@) =~= guild_pairs(vs.take(i + 1), guild_id@));
                }
            } else {
                proof {
                    assert(pair_views(out@) =~= guild_pairs(vs.take(i + 1), guild_id@));
                }
            }
            i = i + 1;
        }
        proof {
            assert(vs.take(self.scores@.len() as int) =~= vs);
        }
        out
    }

    /// Up to `k` of the guild's highest-counted names, highest count
    /// first; ties may come out in any order.
    pub fn top(&self, guild_id: &str, k: usize) -> (r: Vec<(String, u64)>)
        requires
            self.wf(),
        ensures
            is_top_of(pair_views(r@), guild_pairs(self@.scores, guild_id@), k as int),
    {
        broadcast use vstd::seq_lib::group_seq_properties;

        let ghost pairs = guild_pairs(self@.scores, guild_id@);
        proof {
            lemma_guild_pairs_distinct(self@.scores, guild_id@);
        }
        let mut rem: Vec<(String, u64)> = self.collect_guild(guild_id);
        let mut res: Vec<(String, u64)> = Vec::new();
        proof {
            assert(pair_views(res@) =~= Seq::<(Seq<char>, u64)>::empty());
            assert forall|i: int| 0 <= i < pairs.len() implies pair_views(rem@).contains(
                #[trigger] pairs[i],
            ) by {
                assert(pair_views(rem@)[i] == pairs[i]);
            }
            assert forall|i: int| 0 <= i < pair_views(rem@).len() implies pairs.contains(
                #[trigger] pair_views(rem@)[i],
            ) by {
                assert(pair_views(rem@)[i] == pairs[i]);
            }
        }
        while res.len() < k && rem.len() > 0
            invariant
                pairs == guild_pairs(self@.scores, guild_id@),
                pair_views(res@).len() + pair_views(rem@).len() == pairs.len(),
                res@.len() <= k,
                forall|i: int, j: int|
                    #![trigger pair_views(res@)[i], pair_views(res@)[j]]
                    0 <= i < j < res@.len() ==> pair_views(res@)[i].1 >= pair_views(res@)[j].1,
                forall|i: int, j: int|
                    0 <= i < res@.len() && 0 <= j < rem@.len() ==> (#[trigger] pair_views(
                        res@,
                    )[i]).1 >= (#[trigger] pair_views(rem@)[j]).1,
                forall|i: int|
                    0 <= i < res@.len() ==> pairs.contains(#[trigger] pair_views(res@)[i]),
                forall|j: int|
                    0 <= j < rem@.len() ==> pairs.contains(#[trigger] pair_views(rem@)[j]),
                forall|i: int|
                    0 <= i < pairs.len() ==> pair_views(res@).contains(#[trigger] pairs[i])
                        || pair_views(rem@).contains(pairs[i]),
                forall|i: int, j: int|
                    #![trigger pair_views(res@)[i], pair_views(res@)[j]]
                    0 <= i < j < res@.len() ==> pair_views(res@)[i].0 != pair_views(res@)[j].0,
                forall|i: int, j: int|
                    #![trigger pair_views(rem@)[i], pair_views(rem@)[j]]
                    0 <= i < j < rem@.len() ==> pair_views(rem@)[i].0 != pair_views(rem@)[j].0,
                forall|i: int, j: int|
                    0 <= i < res@.len() && 0 <= j < rem@.len() ==> (#[trigger] pair_views(
                        res@,
                    )[i]).0 != (#[trigger] pair_views(rem@)[j]).0,
            decreases rem@.len(),
        {
            let ghost mv = pair_views(rem@);
            let ghost rv = pair_views(res@);
            let mut best: usize = 0;
            let mut j: usize = 1;
            while j < rem.len()
                invariant
                    mv == pair_views(rem@),
                    mv.len() == rem@.len(),
                    best < j || best == 0,
                    best < rem@.len(),
                    j <= rem@.len(),
                    rem@.len() > 0,
                    forall|t: int| 0 <= t < j ==> mv[best as int].1 >= (#[trigger] mv[t]).1,
                decreases rem@.len() - j,
            {
                let cj = rem[j].1;
                let cb = rem[best].1;
                proof {
                    assert(mv[j as int].1 == cj);
                    assert(mv[best as int].1 == cb);
                }
                if cj > cb {
                    best = j;
                }
                j = j + 1;
            }
            let e = rem.swap_remove(best);
            let ghost ev = (e.0@, e.1);
            let ghost mv2 = pair_views(rem@);
            proof {
                assert(ev == mv[best as int]);
                assert(mv2 =~= mv.update(best as int, mv.last()).drop_last());
            }
            res.push(e);
            proof {
                let rv2 = pair_views(res@);
                assert(rv2 =~= rv.push(ev));
                assert forall|t: int| 0 <= t < mv2.len() implies mv.contains(
                    #[trigger] mv2[t],
                ) && mv2[t].1 <= ev.1 by {
                    if t == best && best < mv.len() - 1 {
                        assert(mv2[t] == mv[mv.len() - 1]);
                    } else {
                        assert(mv2[t] == mv[t]);
                    }
                }
                assert forall|i: int| 0 <= i < pairs.len() implies rv2.contains(#[trigger] pairs[i])
                    || mv2.contains(pairs[i]) by {
                    if rv.contains(pairs[i]) {
                        let w = choose|w: int| 0 <= w < rv.len() && rv[w] == pairs[i];
                        assert(rv2[w] == pairs[i]);
                    } else {
                        let w = choose|w: int| 0 <= w < mv.len() && mv[w] == pairs[i];
                        if w == best {
                            assert(rv2[rv.len() as int] == pairs[i]);
                        } else if w == mv.len() - 1 {
                            if best == mv.len() - 1 {
                                assert(rv2[rv.len() as int] == pairs[i]);
                            } else {
                                assert(mv2[best as int] == pairs[i]);
                            }
                        } else {
                            assert(mv2[w] == pairs[i]);
                        }
                    }
                }
            }
        }
        proof {
            let rv = pair_views(res@);
            let mv = pair_views(rem@);
            if pairs.len() <= k as int && mv.len() > 0 {
                assert(rv.len() == res@.len());
                assert(false);
            }
            assert forall|i: int| 0 <= i < pairs.len() implies rv.contains(#[trigger] pairs[i]) || (
            forall|j: int| 0 <= j < rv.len() ==> (#[trigger] rv[j]).1 >= pairs[i].1) by {
                if !rv.contains(pairs[i]) {
                    assert(mv.contains(pairs[i]));
                    let w = choose|w: int| 0 <= w < mv.len() && mv[w] == pairs[i];
                    assert forall|j: int| 0 <= j < rv.len() implies (#[trigger] rv[j]).1
                        >= pairs[i].1 by {
                        assert(rv[j].1 >= mv[w].1);
                    }
                }
            }
        }
        res
    }

    /// The guild's scoreboard as users see it: the top 10 names by count.
    pub fn command_rank(&self, guild_id: &str) -> (r: Vec<(String, u64)>)
        requires
            self.wf(),
        ensures
            is_top_of(pair_views(r@), guild_pairs(self@.scores, guild_id@), 10),
    {
        self.top(guild_id, 10)
    }
}

/// A counted name appears among its guild's scoreboard pairs with its
/// recorded count — so a scoreboard read ranks it whenever the guild has
/// at most as many names as the read asks for, and otherwise exactly when
/// it is not outranked.
pub proof fn lemma_score_in_pairs(s: Seq<ScoreView>, g: Seq<char>, n: Seq<char>)
    requires
        has_score(s, g, n),
    ensures
        guild_pairs(s, g).contains((n, score_count(s, g, n))),
{
    let i = choose|i: int| 0 <= i < s.len() && #[trigger] score_matches(s[i], g, n);
    let pred = |e: ScoreView| e.guild_id == g;
    assert(pred(s[i]));
    s.lemma_filter_contains(pred, i);
    let filtered = s.filter(pred);
    let w = choose|w: int| 0 <= w < filtered.len() && filtered[w] == s[i];
    assert(guild_pairs(s, g)[w] == (n, score_count(s, g, n)));
}

/// A successful resolution through alias `a -> b` credits `b`, not `a`:
/// the bump leaves `b` counted once more and every other name — the typed
/// alias in particular — exactly as it was.
pub proof fn lemma_counter_attribution(
    before: Seq<ScoreView>,
    after: Seq<ScoreView>,
    g: Seq<char>,
    a: Seq<char>,
    b: Seq<char>,
)
    requires
        scores_unique(before),
        a != b,
        scores_bumped(before, after, g, b),
    ensures
        has_score(after, g, b),
        score_count(after, g, b) == incr64(score_count(before, g, b)),
        has_score(after, g, a) == has_score(before, g, a),
        score_count(after, g, a) == score_count(before, g, a),
{
    if has_score(before, g, b) {
        let i = choose|i: int|
            0 <= i < before.len() && #[trigger] score_matches(before[i], g, b) && after
                == before.update(
                i,
                ScoreView {
                    guild_id: before[i].guild_id,
                    name: before[i].name,
                    count: incr64(before[i].count),
                },
            );
        assert(score_matches(after[i], g, b));
        let v = choose|v: int| 0 <= v < before.len() && #[trigger] score_matches(before[v], g, b);
        assert(v == i);
        let w = choose|w: int| 0 <= w < after.len() && #[trigger] score_matches(after[w], g, b);
        if w != i {
            assert(after[w] == before[w]);
            assert(false);
        }
        assert(score_count(after, g, b) == incr64(score_count(before, g, b)));
        if has_score(before, g, a) {
            let p = choose|p: int|
                0 <= p < before.len() && #[trigger] score_matches(before[p], g, a);
            assert(p != i);
            assert(score_matches(after[p], g, a));
            let q = choose|q: int| 0 <= q < after.len() && #[trigger] score_matches(after[q], g, a);
            if q != p {
                if q == i {
                    assert(false);
                } else {
                    assert(after[q] == before[q]);
                    assert(false);
                }
            }
            assert(score_count(after, g, a) == score_count(before, g, a));
        } else {
            if has_score(after, g, a) {
                let q = choose|q: int|
                    0 <= q < after.len() && #[trigger] score_matches(after[q], g, a);
                if q == i {
                    assert(false);
                } else {
                    assert(score_matches(before[q], g, a));
                    assert(false);
                }
            }
        }
    } else {
        let fresh = ScoreView { guild_id: g, name: b, count: 1u64 };
        assert(after == before.push(fresh));
        assert(score_matches(after[before.len() as int], g, b));
        let w = choose|w: int| 0 <= w < after.len() && #[trigger] score_matches(after[w], g, b);
        if w != before.len() {
            assert(after[w] == before[w]);
            assert(false);
        }
        assert(score_count(before, g, b) == 0);
        assert(score_count(after, g, b) == 1);
        if has_score(before, g, a) {
            let p = choose|p: int|
                0 <= p < before.len() && #[trigger] score_matches(before[p], g, a);
            assert(score_matches(after[p], g, a));
            let q = choose|q: int| 0 <= q < after.len() && #[trigger] score_matches(after[q], g, a);
            if q != p {
                if q == before.len() {
                    assert(false);
                } else {
                    assert(after[q] == before[q]);
                    assert(false);
                }
            }
            assert(score_count(after, g, a) == score_count(before, g, a));
        } else {
            if has_score(after, g, a) {
                let q = choose|q: int|
                    0 <= q < after.len() && #[trigger] score_matches(after[q], g, a);
                if q == before.len() {
                    assert(false);
                } else {
                    assert(score_matches(before[q], g, a));
                    assert(false);
                }
            }
        }
    }
}

/// Once a name's counter has been forgotten, the guild's scoreboard pairs
/// no longer mention the name: the scoreboard can never rank a name whose
/// rows were already deleted by the remove that follows the purge.
pub proof fn lemma_purge_ordering(s: Seq<ScoreView>, g: Seq<char>, n: Seq<char>)
    requires
        !has_score(s, g, n),
    ensures
        forall|i: int| 0 <= i < guild_pairs(s, g).len() ==> (#[trigger] guild_pairs(s, g)[i]).0 != n,
{
    let pred = |e: ScoreView| e.guild_id == g;
    let filtered = s.filter(pred);
    assert forall|i: int| 0 <= i < guild_pairs(s, g).len() implies (#[trigger] guild_pairs(
        s,
        g,
    )[i]).0 != n by {
        assert(guild_pairs(s, g)[i] == (filtered[i].name, filtered[i].count));
        assert(pred(filtered[i]));
        filtered.lemma_index_contains(i);
        s.lemma_filter_contains_rev(pred, filtered[i]);
        let k = choose|k: int| 0 <= k < s.len() && s[k] == filtered[i];
        if filtered[i].name == n {
            assert(score_matches(s[k], g, n));
            assert(false);
        }
    }
}

} // verus!
