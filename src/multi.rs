//! Aggregation of the pattern finders.

use crate::digits::supported_base;
use crate::finders::{
    as_pattern, lemma_repeated_at_least, lemma_round_at_least, lemma_sequence_at_least, lemma_sequence_fits, Pattern,
    RepeatedNumberFinder, RoundNumberFinder, SequenceFinder, repeated_value, round_value,
    sequence_value,
};
use vstd::prelude::*;
use vstd::seq_lib::{group_to_multiset_ensures, to_multiset_build, to_multiset_insert};

verus! {

/// One finder of the aggregate.
#[derive(Clone, Copy, Debug)]
pub enum PatternFinder {
    Round(RoundNumberFinder),
    Repeated(RepeatedNumberFinder),
    Sequence(SequenceFinder),
}

/// What finder `f` gives for `n` in `base`.
pub open spec fn finder_value(f: PatternFinder, n: nat, base: nat) -> Option<nat> {
    match f {
        PatternFinder::Round(_) => round_value(n, base),
        PatternFinder::Repeated(_) => repeated_value(n, base),
        PatternFinder::Sequence(s) => sequence_value(s.reverse, n, base),
    }
}

/// The patterns that the finders of `fs` give for `n` in `base`, in finder
/// order, with the finders that give none left out.
pub open spec fn found_patterns(fs: Seq<PatternFinder>, n: nat, base: u8) -> Seq<Pattern>
    decreases fs.len(),
{
    if fs.len() == 0 {
        Seq::empty()
    } else {
        let init = found_patterns(fs.drop_last(), n, base);
        match as_pattern(finder_value(fs.last(), n, base as nat), base) {
            Some(p) => init.push(p),
            None => init,
        }
    }
}

/// The smallest value in `s` (zero for an empty sequence).
pub open spec fn min_value(s: Seq<Pattern>) -> u64
    decreases s.len(),
{
    if s.len() == 0 {
        0
    } else if s.len() == 1 {
        s[0].value
    } else {
        let m = min_value(s.drop_last());
        if s.last().value < m {
            s.last().value
        } else {
            m
        }
    }
}

/// The pattern of smallest value among `s`, all of which are in `base`.
pub open spec fn nearest_pattern(s: Seq<Pattern>, base: u8) -> Option<Pattern> {
    if s.len() == 0 {
        None
    } else {
        Some(Pattern { value: min_value(s), base })
    }
}

/// `min_value` is the value of an element and no element is smaller.
pub proof fn lemma_min_value(s: Seq<Pattern>)
    requires
        s.len() > 0,
    ensures
        exists|i: int| 0 <= i < s.len() && s[i].value == min_value(s),
        forall|i: int| 0 <= i < s.len() ==> min_value(s) <= #[trigger] s[i].value,
    decreases s.len(),
{
    if s.len() == 1 {
        assert(s[0].value == min_value(s));
    } else {
        let init = s.drop_last();
        lemma_min_value(init);
        let i0 = choose|i: int| 0 <= i < init.len() && init[i].value == min_value(init);
        assert(s[i0] == init[i0]);
        assert forall|i: int| 0 <= i < s.len() implies min_value(s) <= #[trigger] s[i].value by {
            if i < s.len() - 1 {
                assert(s[i] == init[i]);
            }
        }
        if s.last().value < min_value(init) {
            assert(s[s.len() - 1].value == min_value(s));
        } else {
            assert(s[i0].value == min_value(s));
        }
    }
}

/// Ascending by value.
pub open spec fn sorted_by_value(s: Seq<Pattern>) -> bool {
    forall|i: int, j: int| 0 <= i < j < s.len() ==> s[i].value <= s[j].value
}

/// The finders of the aggregate, in order: round, repeated digit, ascending
/// and descending sequence.
pub open spec fn standard_finders() -> Seq<PatternFinder> {
    seq![
        PatternFinder::Round(RoundNumberFinder {  }),
        PatternFinder::Repeated(RepeatedNumberFinder {  }),
        PatternFinder::Sequence(SequenceFinder { reverse: false }),
        PatternFinder::Sequence(SequenceFinder { reverse: true }),
    ]
}

/// Every pattern found is at least `n` and carries `base`.
pub proof fn lemma_found_patterns_at_least(fs: Seq<PatternFinder>, n: nat, base: u8)
    requires
        n >= 1,
        supported_base(base),
    ensures
        forall|i: int|
            0 <= i < found_patterns(fs, n, base).len() ==> #[trigger] found_patterns(
                fs,
                n,
                base,
            )[i].value >= n && found_patterns(fs, n, base)[i].base == base,
    decreases fs.len(),
{
    if fs.len() > 0 {
        lemma_found_patterns_at_least(fs.drop_last(), n, base);
        lemma_round_at_least(n, base as nat);
        lemma_repeated_at_least(n, base as nat);
        lemma_sequence_at_least(false, n, base as nat, 1);
        lemma_sequence_at_least(true, n, base as nat, 1);
        lemma_sequence_fits(false, n, base as nat, 1);
        lemma_sequence_fits(true, n, base as nat, 1);
        let init = found_patterns(fs.drop_last(), n, base);
        match as_pattern(finder_value(fs.last(), n, base as nat), base) {
            Some(p) => {
                assert(found_patterns(fs, n, base) == init.push(p));
            },
            None => {},
        }
    }
}

/// For `n >= 1` in a supported base, whatever a finder gives is at least `n`
/// and carries `base`.
pub proof fn lemma_finder_result_at_least(f: PatternFinder, n: nat, base: u8)
    requires
        n >= 1,
        supported_base(base),
    ensures
        as_pattern(finder_value(f, n, base as nat), base) matches Some(p) ==> p.value >= n && p.base
            == base,
{
    lemma_round_at_least(n, base as nat);
    lemma_repeated_at_least(n, base as nat);
    lemma_sequence_at_least(false, n, base as nat, 1);
    lemma_sequence_at_least(true, n, base as nat, 1);
    lemma_sequence_fits(false, n, base as nat, 1);
    lemma_sequence_fits(true, n, base as nat, 1);
}

impl PatternFinder {
    /// The notable value this finder gives for `n` in `base`.
    pub fn find_next(&self, n: u64, base: u8) -> (r: Option<Pattern>)
        requires
            n >= 1,
            supported_base(base),
        ensures
            r == as_pattern(finder_value(*self, n as nat, base as nat), base),
            r matches Some(p) ==> p.value >= n && p.base == base,
    {
        match self {
            PatternFinder::Round(f) => f.find_next(n, base),
            PatternFinder::Repeated(f) => f.find_next(n, base),
            PatternFinder::Sequence(f) => f.find_next(n, base),
        }
    }
}

/// All pattern finders together.
pub struct MultiPatternFinder {
    pub pattern_finders: Vec<PatternFinder>,
}

impl MultiPatternFinder {
    /// The aggregate of every finder variant.
    pub fn new() -> (r: Self)
        ensures
            r.pattern_finders@ == standard_finders(),
    {
        let pattern_finders = vec![
            PatternFinder::Round(RoundNumberFinder::new()),
            PatternFinder::Repeated(RepeatedNumberFinder::new()),
            PatternFinder::Sequence(SequenceFinder::new(false)),
            PatternFinder::Sequence(SequenceFinder::new(true)),
        ];
        assert(pattern_finders@ =~= standard_finders());
        MultiPatternFinder { pattern_finders }
    }

    /// Every pattern the finders give for `n` in `base`, ascending by value.
    pub fn find_patterns(&self, n: u64, base: u8) -> (r: Vec<Pattern>)
        requires
            n >= 1,
            supported_base(base),
        ensures
            r@.to_multiset() == found_patterns(self.pattern_finders@, n as nat, base).to_multiset(),
            sorted_by_value(r@),
            forall|k: int| 0 <= k < r@.len() ==> (#[trigger] r@[k]).value >= n && r@[k].base == base,
    {
        broadcast use group_to_multiset_ensures;

        let ghost fs = self.pattern_finders@;
        let mut res: Vec<Pattern> = Vec::new();
        let mut i: usize = 0;
        while i < self.pattern_finders.len()
            invariant
                n >= 1,
                supported_base(base),
                fs == self.pattern_finders@,
                i <= fs.len(),
                res@.to_multiset() == found_patterns(fs.take(i as int), n as nat, base).to_multiset(),
                sorted_by_value(res@),
                forall|k: int|
                    0 <= k < res@.len() ==> (#[trigger] res@[k]).value >= n && res@[k].base == base,
            decreases fs.len() - i,
        {
            assert(fs.take(i + 1).drop_last() =~= fs.take(i as int));
            assert(fs.take(i + 1).last() == fs[i as int]);
            let ghost prev = found_patterns(fs.take(i as int), n as nat, base);
            let found = self.pattern_finders[i].find_next(n, base);
            match found {
                Some(p) => {
                    let mut pos: usize = 0;
                    while pos < res.len() && res[pos].value <= p.value
                        invariant
                            pos <= res@.len(),
                            forall|k: int| 0 <= k < pos ==> #[trigger] res@[k].value <= p.value,
                        decreases res@.len() - pos,
                    {
                        pos = pos + 1;
                    }
                    let ghost before = res@;
                    res.insert(pos, p);
                    proof {
                        assert(res@ == before.insert(pos as int, p));
                        assert forall|a: int, b: int| 0 <= a < b < res@.len() implies res@[a].value
                            <= res@[b].value by {
                            if b < pos {
                            } else if a < pos && b == pos {
                            } else if a < pos {
                                assert(before[a].value <= p.value);
                                assert(pos < before.len() ==> p.value < before[pos as int].value);
                                assert(pos as int <= b - 1);
                                assert(before[pos as int].value <= before[b - 1].value || pos as int
                                    == b - 1);
                            } else if a == pos {
                                assert(p.value < before[pos as int].value);
                                assert(before[pos as int].value <= before[b - 1].value || pos as int
                                    == b - 1);
                            } else {
                            }
                        }
                        assert forall|k: int| 0 <= k < res@.len() implies (#[trigger] res@[k]).value >= n
                            && res@[k].base == base by {
                            if k < pos {
                                assert(res@[k] == before[k]);
                            } else if k > pos {
                                assert(res@[k] == before[k - 1]);
                            }
                        }
                        assert(found_patterns(fs.take(i + 1), n as nat, base) == prev.push(p));
                        to_multiset_build(prev, p);
                        to_multiset_insert(before, pos as int, p);
                        assert(prev.push(p).to_multiset() =~= prev.to_multiset().insert(p));
                        assert(res@.to_multiset() =~= before.to_multiset().insert(p));
                    }
                },
                None => {
                    assert(found_patterns(fs.take(i + 1), n as nat, base) == prev);
                },
            }
            i = i + 1;
        }
        assert(fs.take(fs.len() as int) =~= fs);
        res
    }

    /// The pattern nearest above `n`: the found pattern with the smallest
    /// value, or `None` when no finder gives one.
    pub fn find_next(&self, n: u64, base: u8) -> (r: Option<Pattern>)
        requires
            n >= 1,
            supported_base(base),
        ensures
            r is None <==> found_patterns(self.pattern_finders@, n as nat, base).len() == 0,
            r matches Some(p) ==> found_patterns(self.pattern_finders@, n as nat, base).contains(p),
            r matches Some(p) ==> forall|i: int|
                0 <= i < found_patterns(self.pattern_finders@, n as nat, base).len()
                    ==> p.value <= #[trigger] found_patterns(self.pattern_finders@, n as nat, base)[i].value,
            r matches Some(p) ==> p.value >= n && p.base == base,
            r == nearest_pattern(found_patterns(self.pattern_finders@, n as nat, base), base),
    {
        broadcast use group_to_multiset_ensures;

        let ghost all = found_patterns(self.pattern_finders@, n as nat, base);
        let patterns = self.find_patterns(n, base);
        let mut best: Option<Pattern> = None;
        let mut best_delta: u64 = u64::MAX;
        let mut i: usize = 0;
        while i < patterns.len()
            invariant
                i <= patterns@.len(),
                patterns@.to_multiset() == all.to_multiset(),
                forall|k: int|
                    0 <= k < patterns@.len() ==> (#[trigger] patterns@[k]).value >= n
                        && patterns@[k].base == base,
                best is None <==> i == 0,
                best matches Some(p) ==> patterns@.contains(p) && best_delta == p.value - n,
                best matches Some(p) ==> forall|k: int|
                    0 <= k < i ==> p.value <= #[trigger] patterns@[k].value,
            decreases patterns@.len() - i,
        {
            let p = patterns[i];
            let delta = p.value - n;
            if best.is_none() || delta < best_delta {
                best_delta = delta;
                best = Some(p);
            }
            i = i + 1;
        }
        proof {
            assert(patterns@.to_multiset().len() == all.to_multiset().len());
            assert(patterns@.len() == all.len());
            if let Some(p) = best {
                assert(patterns@.to_multiset().count(p) > 0);
                assert forall|k: int| 0 <= k < all.len() implies p.value <= #[trigger] all[k].value by {
                    assert(all.to_multiset().count(all[k]) > 0);
                    assert(patterns@.contains(all[k]));
                }
                lemma_min_value(all);
                lemma_found_patterns_at_least(self.pattern_finders@, n as nat, base);
                let i0 = choose|i: int| 0 <= i < all.len() && all[i].value == min_value(all);
                let j0 = choose|j: int| 0 <= j < all.len() && all[j] == p;
                assert(all[j0].base == base);
                assert(p.value <= all[i0].value);
                assert(min_value(all) <= all[j0].value);
            }
        }
        best
    }
}

} // verus!
