//! The dictionary: the pinyin-to-Yi-character map, the syllable set used by
//! the segmenter, and the radical side table. All three are immutable after
//! load; every query is total and side-effect-free.

use vstd::prelude::*;
use vstd::string::*;
use crate::strutil::{str_eq, clone_string_vec};
use crate::jsonio::{parse_syllable_entries, parse_radical_entries, syl_entries_of, rad_entries_of};

verus! {

/// First-match lookup in an association sequence keyed by character strings.
pub open spec fn assoc_lookup<V>(m: Seq<(Seq<char>, V)>, p: Seq<char>) -> Option<V>
    decreases m.len(),
{
    if m.len() == 0 {
        None
    } else if m[0].0 == p {
        Some(m[0].1)
    } else {
        assoc_lookup(m.skip(1), p)
    }
}

/// A key occurs in an association sequence.
pub open spec fn assoc_has<V>(m: Seq<(Seq<char>, V)>, p: Seq<char>) -> bool {
    exists|i: int| 0 <= i < m.len() && m[i].0 == p
}

/// Skipping a non-matching head leaves a lookup unchanged.
pub proof fn lemma_assoc_skip<V>(m: Seq<(Seq<char>, V)>, p: Seq<char>, i: int)
    requires
        0 <= i < m.len(),
        m[i].0 != p,
    ensures
        assoc_lookup(m.skip(i), p) == assoc_lookup(m.skip(i + 1), p),
{
    assert(m.skip(i)[0] == m[i]);
    assert(m.skip(i).skip(1) =~= m.skip(i + 1));
}

/// A lookup that scanned the whole sequence without a match returns `None`,
/// and `assoc_has` fails too.
pub proof fn lemma_assoc_none<V>(m: Seq<(Seq<char>, V)>, p: Seq<char>, i: int)
    requires
        0 <= i <= m.len(),
        forall|j: int| 0 <= j < i ==> m[j].0 != p,
        assoc_lookup(m.skip(i), p) is None,
    ensures
        assoc_lookup(m, p) is None,
        !assoc_has(m, p),
    decreases i,
{
    if i > 0 {
        lemma_assoc_skip(m, p, i - 1);
        lemma_assoc_none(m, p, i - 1);
    } else {
        assert(m.skip(0) =~= m);
        if assoc_has(m, p) {
            let j = choose|j: int| 0 <= j < m.len() && m[j].0 == p;
            lemma_assoc_some_of_index(m, p, j);
        }
    }
}

/// An index whose key matches witnesses that the lookup returns `Some`.
pub proof fn lemma_assoc_some_of_index<V>(m: Seq<(Seq<char>, V)>, p: Seq<char>, i: int)
    requires
        0 <= i < m.len(),
        m[i].0 == p,
    ensures
        assoc_lookup(m, p) is Some,
    decreases i,
{
    if m[0].0 != p {
        assert(m.skip(1)[i - 1] == m[i]);
        lemma_assoc_some_of_index(m.skip(1), p, i - 1);
    }
}

/// The engine's lookup tables. `pinyin_index` maps a pinyin to the Yi
/// characters it keys; `syllable_set` lists every pinyin of `pinyin_index`
/// (the segmenter's membership oracle); `radical_pinyin_index` maps a pinyin
/// to its radical. A pinyin may appear in both maps.
pub struct YiIME {
    pub pinyin_index: Vec<(String, Vec<String>)>,
    pub syllable_set: Vec<String>,
    pub radical_pinyin_index: Vec<(String, String)>,
}

impl YiIME {
    /// The syllable map, as an association sequence of character strings.
    pub open spec fn syl_map(self) -> Seq<(Seq<char>, Seq<Seq<char>>)> {
        self.pinyin_index.deep_view()
    }

    /// The radical map, as an association sequence of character strings.
    pub open spec fn rad_map(self) -> Seq<(Seq<char>, Seq<char>)> {
        self.radical_pinyin_index.deep_view()
    }

    /// Keys are unique in both maps, and `syllable_set` holds exactly the
    /// keys of `pinyin_index`.
    pub open spec fn wf(self) -> bool {
        &&& forall|i: int, j: int|
            0 <= i < j < self.syl_map().len() ==> self.syl_map()[i].0 != self.syl_map()[j].0
        &&& self.syllable_set.deep_view().len() == self.syl_map().len()
        &&& forall|i: int|
            0 <= i < self.syl_map().len() ==> self.syllable_set.deep_view()[i]
                == #[trigger] self.syl_map()[i].0
        &&& forall|i: int, j: int|
            0 <= i < j < self.rad_map().len() ==> self.rad_map()[i].0 != self.rad_map()[j].0
    }

    /// A pinyin is a syllable of the dictionary.
    pub open spec fn spec_has_syllable(self, p: Seq<char>) -> bool {
        assoc_has(self.syl_map(), p)
    }

    /// The Yi characters a pinyin maps to; empty if absent.
    pub open spec fn spec_lookup(self, p: Seq<char>) -> Seq<Seq<char>> {
        match assoc_lookup(self.syl_map(), p) {
            Some(cs) => cs,
            None => Seq::empty(),
        }
    }

    /// The radical a pinyin maps to, if any.
    pub open spec fn spec_radical(self, p: Seq<char>) -> Option<Seq<char>> {
        assoc_lookup(self.rad_map(), p)
    }

    /// A fresh engine with empty tables.
    pub fn new() -> (r: Self)
        ensures
            r.wf(),
            r.syl_map() =~= Seq::empty(),
            r.rad_map() =~= Seq::empty(),
    {
        YiIME {
            pinyin_index: Vec::new(),
            syllable_set: Vec::new(),
            radical_pinyin_index: Vec::new(),
        }
    }

    /// Membership in the syllable set.
    pub fn contains_syllable(&self, pinyin: &str) -> (r: bool)
        requires
            self.wf(),
        ensures
            r == self.spec_has_syllable(pinyin@),
    {
        let n: usize = self.syllable_set.len();
        let mut i: usize = 0;
        while i < n
            invariant
                i <= n,
                n == self.syllable_set@.len(),
                self.wf(),
                forall|j: int| 0 <= j < i ==> self.syl_map()[j].0 != pinyin@,
            decreases n - i,
        {
            if str_eq(self.syllable_set[i].as_str(), pinyin) {
                proof {
                    assert(self.syllable_set.deep_view()[i as int] == self.syllable_set@[i as int]@);
                    assert(self.syl_map()[i as int].0 == pinyin@);
                    assert(assoc_has(self.syl_map(), pinyin@));
                }
                return true;
            }
            proof {
                assert(self.syllable_set.deep_view()[i as int] == self.syllable_set@[i as int]@);
            }
            i += 1;
        }
        proof {
            assert(self.syl_map().skip(n as int).len() == 0);
            lemma_assoc_none(self.syl_map(), pinyin@, n as int);
        }
        false
    }

    /// The Yi characters mapped from a pinyin; empty when the pinyin is not
    /// a syllable.
    pub fn lookup(&self, pinyin: &str) -> (r: Vec<String>)
        ensures
            r.deep_view() == self.spec_lookup(pinyin@),
    {
        let n: usize = self.pinyin_index.len();
        let mut i: usize = 0;
        proof {
            assert(self.syl_map().skip(0) =~= self.syl_map());
        }
        while i < n
            invariant
                i <= n,
                n == self.pinyin_index@.len(),
                assoc_lookup(self.syl_map(), pinyin@) == assoc_lookup(
                    self.syl_map().skip(i as int),
                    pinyin@,
                ),
            decreases n - i,
        {
            proof {
                assert(self.syl_map()[i as int] == (
                    self.pinyin_index@[i as int].0@,
                    self.pinyin_index@[i as int].1.deep_view(),
                ));
            }
            if str_eq(self.pinyin_index[i].0.as_str(), pinyin) {
                proof {
                    assert(self.syl_map().skip(i as int)[0] == self.syl_map()[i as int]);
                }
                return clone_string_vec(&self.pinyin_index[i].1);
            }
            proof {
                lemma_assoc_skip(self.syl_map(), pinyin@, i as int);
            }
            i += 1;
        }
        proof {
            assert(self.syl_map().skip(n as int).len() == 0);
        }
        let r: Vec<String> = Vec::new();
        proof {
            assert(r.deep_view() =~= Seq::<Seq<char>>::empty());
        }
        r
    }

    /// The radical keyed by a pinyin, if the radical table has it.
    pub fn get_radical_candidate(&self, pinyin: &str) -> (r: Option<String>)
        ensures
            match r {
                Some(s) => self.spec_radical(pinyin@) == Some(s@),
                None => self.spec_radical(pinyin@) is None,
            },
    {
        let n: usize = self.radical_pinyin_index.len();
        let mut i: usize = 0;
        proof {
            assert(self.rad_map().skip(0) =~= self.rad_map());
        }
        while i < n
            invariant
                i <= n,
                n == self.radical_pinyin_index@.len(),
                assoc_lookup(self.rad_map(), pinyin@) == assoc_lookup(
                    self.rad_map().skip(i as int),
                    pinyin@,
                ),
            decreases n - i,
        {
            proof {
                assert(self.rad_map()[i as int] == (
                    self.radical_pinyin_index@[i as int].0@,
                    self.radical_pinyin_index@[i as int].1@,
                ));
            }
            if str_eq(self.radical_pinyin_index[i].0.as_str(), pinyin) {
                proof {
                    assert(self.rad_map().skip(i as int)[0] == self.rad_map()[i as int]);
                }
                return Some(self.radical_pinyin_index[i].1.clone());
            }
            proof {
                lemma_assoc_skip(self.rad_map(), pinyin@, i as int);
            }
            i += 1;
        }
        proof {
            assert(self.rad_map().skip(n as int).len() == 0);
        }
        None
    }

    /// A letter that can serve either as the coda or tone mark of the
    /// preceding syllable or as the onset of the next one.
    pub fn is_ambiguous_char(c: char) -> (r: bool)
        ensures
            r == is_ambiguous(c),
    {
        c == 'p' || c == 't' || c == 'x' || c == 'r' || c == 'y'
    }

    /// Every pinyin of the syllable map is in the syllable set: the
    /// membership oracle agrees with the map it was built from.
    pub proof fn lemma_syllables_contained(self)
        requires
            self.wf(),
        ensures
            forall|p: Seq<char>| #[trigger]
                assoc_has(self.syl_map(), p) ==> exists|i: int|
                    0 <= i < self.syllable_set.deep_view().len()
                        && self.syllable_set.deep_view()[i] == p,
    {
        assert forall|p: Seq<char>| #[trigger] assoc_has(self.syl_map(), p) implies exists|i: int|
            0 <= i < self.syllable_set.deep_view().len() && self.syllable_set.deep_view()[i]
                == p by {
            let i = choose|i: int| 0 <= i < self.syl_map().len() && self.syl_map()[i].0 == p;
            assert(self.syllable_set.deep_view()[i] == p);
        }
    }
}

/// The ambiguous letters: `p`, `t`, `x`, `r`, `y`.
pub open spec fn is_ambiguous(c: char) -> bool {
    c == 'p' || c == 't' || c == 'x' || c == 'r' || c == 'y'
}

/// The errors the dictionary loaders can surface: the resource is absent,
/// or its JSON is not an object of strings (or of string arrays).
#[derive(Clone, Copy, PartialEq, Eq, Structural, Debug)]
pub enum DictError {
    DictionaryMissing,
    DictionaryMalformed,
}

/// Adds one pinyin-to-Yi-character mapping to the syllable map: pushes onto
/// the entry already keyed by `p`, or appends a fresh entry.
pub open spec fn spec_add_mapping(
    m: Seq<(Seq<char>, Seq<Seq<char>>)>,
    p: Seq<char>,
    y: Seq<char>,
) -> Seq<(Seq<char>, Seq<Seq<char>>)>
    decreases m.len(),
{
    if m.len() == 0 {
        seq![(p, seq![y])]
    } else if m[0].0 == p {
        seq![(m[0].0, m[0].1.push(y))] + m.skip(1)
    } else {
        seq![m[0]] + spec_add_mapping(m.skip(1), p, y)
    }
}

proof fn lemma_add_mapping_found(
    m: Seq<(Seq<char>, Seq<Seq<char>>)>,
    p: Seq<char>,
    y: Seq<char>,
    i: int,
)
    requires
        0 <= i < m.len(),
        m[i].0 == p,
        forall|j: int| 0 <= j < i ==> m[j].0 != p,
    ensures
        spec_add_mapping(m, p, y) =~= m.update(i, (p, m[i].1.push(y))),
    decreases i,
{
    if i == 0 {
    } else {
        assert(m.skip(1)[i - 1] == m[i]);
        assert forall|j: int| 0 <= j < i - 1 implies m.skip(1)[j].0 != p by {
            assert(m.skip(1)[j] == m[j + 1]);
        }
        lemma_add_mapping_found(m.skip(1), p, y, i - 1);
        assert forall|k: int| 0 <= k < m.len() implies (seq![m[0]] + spec_add_mapping(
            m.skip(1),
            p,
            y,
        ))[k] == m.update(i, (p, m[i].1.push(y)))[k] by {
            if k > 0 {
                assert((seq![m[0]] + spec_add_mapping(m.skip(1), p, y))[k] == spec_add_mapping(
                    m.skip(1),
                    p,
                    y,
                )[k - 1]);
                assert(m.skip(1).update(i - 1, (p, m[i].1.push(y)))[k - 1] == if k - 1 == i - 1 {
                    (p, m[i].1.push(y))
                } else {
                    m.skip(1)[k - 1]
                });
            }
        }
    }
}

proof fn lemma_add_mapping_absent(m: Seq<(Seq<char>, Seq<Seq<char>>)>, p: Seq<char>, y: Seq<char>)
    requires
        forall|j: int| 0 <= j < m.len() ==> m[j].0 != p,
    ensures
        spec_add_mapping(m, p, y) =~= m.push((p, seq![y])),
    decreases m.len(),
{
    if m.len() > 0 {
        assert forall|j: int| 0 <= j < m.skip(1).len() implies m.skip(1)[j].0 != p by {
            assert(m.skip(1)[j] == m[j + 1]);
        }
        lemma_add_mapping_absent(m.skip(1), p, y);
        assert forall|k: int| 0 <= k < m.len() + 1 implies (seq![m[0]] + spec_add_mapping(
            m.skip(1),
            p,
            y,
        ))[k] == m.push((p, seq![y]))[k] by {
            if k > 0 {
                assert((seq![m[0]] + spec_add_mapping(m.skip(1), p, y))[k] == m.skip(1).push(
                    (p, seq![y]),
                )[k - 1]);
            }
        }
    }
}

/// Sets the radical keyed by `p`: replaces the value of the entry already
/// keyed by `p`, or appends a fresh entry.
pub open spec fn spec_add_radical(
    m: Seq<(Seq<char>, Seq<char>)>,
    p: Seq<char>,
    r: Seq<char>,
) -> Seq<(Seq<char>, Seq<char>)>
    decreases m.len(),
{
    if m.len() == 0 {
        seq![(p, r)]
    } else if m[0].0 == p {
        seq![(p, r)] + m.skip(1)
    } else {
        seq![m[0]] + spec_add_radical(m.skip(1), p, r)
    }
}

proof fn lemma_add_radical_found(m: Seq<(Seq<char>, Seq<char>)>, p: Seq<char>, r: Seq<char>, i: int)
    requires
        0 <= i < m.len(),
        m[i].0 == p,
        forall|j: int| 0 <= j < i ==> m[j].0 != p,
    ensures
        spec_add_radical(m, p, r) =~= m.update(i, (p, r)),
    decreases i,
{
    if i == 0 {
    } else {
        assert(m.skip(1)[i - 1] == m[i]);
        assert forall|j: int| 0 <= j < i - 1 implies m.skip(1)[j].0 != p by {
            assert(m.skip(1)[j] == m[j + 1]);
        }
        lemma_add_radical_found(m.skip(1), p, r, i - 1);
        assert forall|k: int| 0 <= k < m.len() implies (seq![m[0]] + spec_add_radical(
            m.skip(1),
            p,
            r,
        ))[k] == m.update(i, (p, r))[k] by {
            if k > 0 {
                assert((seq![m[0]] + spec_add_radical(m.skip(1), p, r))[k] == spec_add_radical(
                    m.skip(1),
                    p,
                    r,
                )[k - 1]);
                assert(m.skip(1).update(i - 1, (p, r))[k - 1] == if k - 1 == i - 1 {
                    (p, r)
                } else {
                    m.skip(1)[k - 1]
                });
            }
        }
    }
}

proof fn lemma_add_radical_absent(m: Seq<(Seq<char>, Seq<char>)>, p: Seq<char>, r: Seq<char>)
    requires
        forall|j: int| 0 <= j < m.len() ==> m[j].0 != p,
    ensures
        spec_add_radical(m, p, r) =~= m.push((p, r)),
    decreases m.len(),
{
    if m.len() > 0 {
        assert forall|j: int| 0 <= j < m.skip(1).len() implies m.skip(1)[j].0 != p by {
            assert(m.skip(1)[j] == m[j + 1]);
        }
        lemma_add_radical_absent(m.skip(1), p, r);
        assert forall|k: int| 0 <= k < m.len() + 1 implies (seq![m[0]] + spec_add_radical(
            m.skip(1),
            p,
            r,
        ))[k] == m.push((p, r))[k] by {
            if k > 0 {
                assert((seq![m[0]] + spec_add_radical(m.skip(1), p, r))[k] == m.skip(1).push(
                    (p, r),
                )[k - 1]);
            }
        }
    }
}

/// One dictionary entry folded into the syllable map: the Yi character `yi`
/// added under each pinyin of `ps` in turn.
pub open spec fn spec_add_entry(
    m: Seq<(Seq<char>, Seq<Seq<char>>)>,
    yi: Seq<char>,
    ps: Seq<Seq<char>>,
) -> Seq<(Seq<char>, Seq<Seq<char>>)>
    decreases ps.len(),
{
    if ps.len() == 0 {
        m
    } else {
        spec_add_entry(spec_add_mapping(m, ps[0], yi), yi, ps.skip(1))
    }
}

/// The syllable map built from a sequence of (Yi character, pinyins)
/// entries, folded left to right.
pub open spec fn spec_build_syllables(
    m: Seq<(Seq<char>, Seq<Seq<char>>)>,
    es: Seq<(Seq<char>, Seq<Seq<char>>)>,
) -> Seq<(Seq<char>, Seq<Seq<char>>)>
    decreases es.len(),
{
    if es.len() == 0 {
        m
    } else {
        spec_build_syllables(spec_add_entry(m, es[0].0, es[0].1), es.skip(1))
    }
}

/// The radical map built from a sequence of (radical, pinyin) entries: each
/// entry keys its radical under its pinyin, later entries overriding.
pub open spec fn spec_build_radicals(
    m: Seq<(Seq<char>, Seq<char>)>,
    es: Seq<(Seq<char>, Seq<char>)>,
) -> Seq<(Seq<char>, Seq<char>)>
    decreases es.len(),
{
    if es.len() == 0 {
        m
    } else {
        spec_build_radicals(spec_add_radical(m, es[0].1, es[0].0), es.skip(1))
    }
}

impl YiIME {
    /// Records that `yi_char` is keyed by `pinyin`, keeping the syllable
    /// set aligned with the map's keys.
    fn add_mapping(&mut self, pinyin: &String, yi_char: &String)
        requires
            old(self).wf(),
        ensures
            final(self).wf(),
            final(self).syl_map() == spec_add_mapping(old(self).syl_map(), pinyin@, yi_char@),
            final(self).rad_map() == old(self).rad_map(),
    {
        let n: usize = self.pinyin_index.len();
        let mut i: usize = 0;
        while i < n
            invariant
                i <= n,
                n == self.pinyin_index@.len(),
                *self == *old(self),
                old(self).wf(),
                forall|j: int| 0 <= j < i ==> self.syl_map()[j].0 != pinyin@,
            decreases n - i,
        {
            proof {
                assert(self.syl_map()[i as int] == (
                    self.pinyin_index@[i as int].0@,
                    self.pinyin_index@[i as int].1.deep_view(),
                ));
            }
            if str_eq(self.pinyin_index[i].0.as_str(), pinyin.as_str()) {
                let ghost m = self.syl_map();
                let mut e = self.pinyin_index.remove(i);
                e.1.push(yi_char.clone());
                self.pinyin_index.insert(i, e);
                proof {
                    let v_old = old(self).pinyin_index@;
                    let v_new = self.pinyin_index@;
                    assert(v_new =~= v_old.update(i as int, e));
                    assert(e.1@.last()@ == yi_char@);
                    assert(e.1.deep_view() =~= m[i as int].1.push(yi_char@));
                    assert(self.syl_map() =~= m.update(i as int, (pinyin@, m[i as int].1.push(
                        yi_char@,
                    ))));
                    lemma_add_mapping_found(m, pinyin@, yi_char@, i as int);
                    assert(self.syllable_set == old(self).syllable_set);
                    assert(m == old(self).syl_map());
                    assert(self.syl_map().len() == m.len());
                    assert forall|a: int, b: int|
                        0 <= a < b < self.syl_map().len() implies self.syl_map()[a].0
                        != self.syl_map()[b].0 by {
                        assert(old(self).syl_map()[a].0 == m[a].0);
                        assert(old(self).syl_map()[b].0 == m[b].0);
                        assert(self.syl_map()[a].0 == m[a].0);
                        assert(self.syl_map()[b].0 == m[b].0);
                    }
                    assert forall|a: int|
                        0 <= a < self.syl_map().len() implies self.syllable_set.deep_view()[a]
                        == self.syl_map()[a].0 by {
                        assert(self.syl_map()[a].0 == m[a].0);
                        assert(old(self).syl_map()[a].0 == m[a].0);
                        assert(old(self).syllable_set.deep_view()[a] == old(self).syl_map()[a].0);
                    }
                    assert(self.syllable_set.deep_view().len() == self.syl_map().len());
                    assert(self.rad_map() == old(self).rad_map());
                    assert forall|a: int, b: int|
                        0 <= a < b < self.rad_map().len() implies self.rad_map()[a].0
                        != self.rad_map()[b].0 by {
                        assert(old(self).rad_map()[a].0 == self.rad_map()[a].0);
                        assert(old(self).rad_map()[b].0 == self.rad_map()[b].0);
                    }
                    assert(self.wf());
                }
                return;
            }
            i += 1;
        }
        let ghost m = self.syl_map();
        self.pinyin_index.push((pinyin.clone(), vec![yi_char.clone()]));
        self.syllable_set.push(pinyin.clone());
        proof {
            let v_new = self.pinyin_index@;
            let lastp = v_new.last();
            assert(lastp.0@ == pinyin@);
            assert(lastp.1.deep_view() =~= seq![yi_char@]);
            assert(self.syl_map()[m.len() as int].1 =~= seq![yi_char@]);
            assert(self.syl_map() =~= m.push((pinyin@, seq![yi_char@])));
            lemma_add_mapping_absent(m, pinyin@, yi_char@);
            assert(self.syllable_set.deep_view() =~= old(self).syllable_set.deep_view().push(
                pinyin@,
            ));
            assert forall|a: int, b: int|
                0 <= a < b < self.syl_map().len() implies self.syl_map()[a].0
                != self.syl_map()[b].0 by {
                assert(self.syl_map()[a].0 == m[a].0);
                assert(old(self).syl_map()[a].0 == m[a].0);
                if b < m.len() {
                    assert(old(self).syl_map()[b].0 == m[b].0);
                    assert(self.syl_map()[b].0 == m[b].0);
                } else {
                    assert(self.syl_map()[b].0 == pinyin@);
                }
            }
            assert forall|a: int|
                0 <= a < self.syl_map().len() implies self.syllable_set.deep_view()[a]
                == self.syl_map()[a].0 by {
                if a < m.len() {
                    assert(self.syl_map()[a].0 == m[a].0);
                    assert(old(self).syl_map()[a].0 == m[a].0);
                    assert(old(self).syllable_set.deep_view()[a] == old(self).syl_map()[a].0);
                }
            }
            assert(self.syllable_set.deep_view().len() == self.syl_map().len());
            assert(self.rad_map() == old(self).rad_map());
            assert forall|a: int, b: int|
                0 <= a < b < self.rad_map().len() implies self.rad_map()[a].0
                != self.rad_map()[b].0 by {
                assert(old(self).rad_map()[a].0 == self.rad_map()[a].0);
                assert(old(self).rad_map()[b].0 == self.rad_map()[b].0);
            }
            assert(self.wf());
        }
    }

    /// Records that `radical` is keyed by `pinyin` in the radical table.
    fn add_radical(&mut self, pinyin: &String, radical: &String)
        requires
            old(self).wf(),
        ensures
            final(self).wf(),
            final(self).rad_map() == spec_add_radical(old(self).rad_map(), pinyin@, radical@),
            final(self).syl_map() == old(self).syl_map(),
            final(self).syllable_set == old(self).syllable_set,
    {
        let n: usize = self.radical_pinyin_index.len();
        let mut i: usize = 0;
        while i < n
            invariant
                i <= n,
                n == self.radical_pinyin_index@.len(),
                *self == *old(self),
                old(self).wf(),
                forall|j: int| 0 <= j < i ==> self.rad_map()[j].0 != pinyin@,
            decreases n - i,
        {
            proof {
                assert(self.rad_map()[i as int] == (
                    self.radical_pinyin_index@[i as int].0@,
                    self.radical_pinyin_index@[i as int].1@,
                ));
            }
            if str_eq(self.radical_pinyin_index[i].0.as_str(), pinyin.as_str()) {
                let ghost m = self.rad_map();
                let _ = self.radical_pinyin_index.remove(i);
                let e: (String, String) = (pinyin.clone(), radical.clone());
                self.radical_pinyin_index.insert(i, e);
                proof {
                    let v_old = old(self).radical_pinyin_index@;
                    assert(self.radical_pinyin_index@ =~= v_old.update(i as int, e));
                    assert(self.rad_map() =~= m.update(i as int, (pinyin@, radical@)));
                    lemma_add_radical_found(m, pinyin@, radical@, i as int);
                    assert forall|a: int, b: int|
                        0 <= a < b < self.rad_map().len() implies self.rad_map()[a].0
                        != self.rad_map()[b].0 by {
                        assert(old(self).rad_map()[a].0 == m[a].0);
                        assert(old(self).rad_map()[b].0 == m[b].0);
                        assert(self.rad_map()[a].0 == m[a].0);
                        assert(self.rad_map()[b].0 == m[b].0);
                    }
                    assert(self.wf());
                }
                return;
            }
            i += 1;
        }
        let ghost m = self.rad_map();
        self.radical_pinyin_index.push((pinyin.clone(), radical.clone()));
        proof {
            assert(self.rad_map() =~= m.push((pinyin@, radical@)));
            lemma_add_radical_absent(m, pinyin@, radical@);
        }
    }

    /// Folds a sequence of (Yi character, pinyins) entries into the
    /// syllable map.
    pub fn build_syllable_maps(&mut self, entries: &Vec<(String, Vec<String>)>)
        requires
            old(self).wf(),
        ensures
            final(self).wf(),
            final(self).syl_map() == spec_build_syllables(
                old(self).syl_map(),
                entries.deep_view(),
            ),
            final(self).rad_map() == old(self).rad_map(),
    {
        let ghost es = entries.deep_view();
        let ghost m0 = self.syl_map();
        let n: usize = entries.len();
        let mut k: usize = 0;
        proof {
            assert(es.skip(0) =~= es);
        }
        while k < n
            invariant
                k <= n,
                n == entries@.len(),
                es == entries.deep_view(),
                self.wf(),
                self.rad_map() == old(self).rad_map(),
                spec_build_syllables(m0, es) == spec_build_syllables(
                    self.syl_map(),
                    es.skip(k as int),
                ),
            decreases n - k,
        {
            let ghost m_cur = self.syl_map();
            let yi: &String = &entries[k].0;
            let ps: &Vec<String> = &entries[k].1;
            self.add_entry(yi, ps);
            proof {
                assert(es[k as int] == (entries@[k as int].0@, entries@[k as int].1.deep_view()));
                assert(es.skip(k as int)[0] == es[k as int]);
                assert(es.skip(k as int).skip(1) =~= es.skip(k as int + 1));
            }
            k += 1;
        }
        proof {
            assert(es.skip(n as int).len() == 0);
        }
    }

    /// One entry of `build_syllable_maps`.
    fn add_entry(&mut self, yi_char: &String, pinyins: &Vec<String>)
        requires
            old(self).wf(),
        ensures
            final(self).wf(),
            final(self).syl_map() == spec_add_entry(
                old(self).syl_map(),
                yi_char@,
                pinyins.deep_view(),
            ),
            final(self).rad_map() == old(self).rad_map(),
    {
        let ghost ps = pinyins.deep_view();
        let ghost m0 = self.syl_map();
        let n: usize = pinyins.len();
        let mut j: usize = 0;
        proof {
            assert(ps.skip(0) =~= ps);
        }
        while j < n
            invariant
                j <= n,
                n == pinyins@.len(),
                ps == pinyins.deep_view(),
                self.wf(),
                self.rad_map() == old(self).rad_map(),
                spec_add_entry(m0, yi_char@, ps) == spec_add_entry(
                    self.syl_map(),
                    yi_char@,
                    ps.skip(j as int),
                ),
            decreases n - j,
        {
            self.add_mapping(&pinyins[j], yi_char);
            proof {
                assert(ps.skip(j as int)[0] == ps[j as int]);
                assert(ps[j as int] == pinyins@[j as int]@);
                assert(ps.skip(j as int).skip(1) =~= ps.skip(j as int + 1));
            }
            j += 1;
        }
        proof {
            assert(ps.skip(n as int).len() == 0);
        }
    }

    /// Folds a sequence of (radical, pinyin) entries into the radical
    /// table.
    pub fn build_radical_map(&mut self, entries: &Vec<(String, String)>)
        requires
            old(self).wf(),
        ensures
            final(self).wf(),
            final(self).rad_map() == spec_build_radicals(old(self).rad_map(), entries.deep_view()),
            final(self).syl_map() == old(self).syl_map(),
            final(self).syllable_set == old(self).syllable_set,
    {
        let ghost es = entries.deep_view();
        let ghost m0 = self.rad_map();
        let n: usize = entries.len();
        let mut k: usize = 0;
        proof {
            assert(es.skip(0) =~= es);
        }
        while k < n
            invariant
                k <= n,
                n == entries@.len(),
                es == entries.deep_view(),
                self.wf(),
                self.syl_map() == old(self).syl_map(),
                self.syllable_set == old(self).syllable_set,
                spec_build_radicals(m0, es) == spec_build_radicals(
                    self.rad_map(),
                    es.skip(k as int),
                ),
            decreases n - k,
        {
            self.add_radical(&entries[k].1, &entries[k].0);
            proof {
                assert(es[k as int] == (entries@[k as int].0@, entries@[k as int].1@));
                assert(es.skip(k as int)[0] == es[k as int]);
                assert(es.skip(k as int).skip(1) =~= es.skip(k as int + 1));
            }
            k += 1;
        }
        proof {
            assert(es.skip(n as int).len() == 0);
        }
    }
}

impl YiIME {
    /// Loads the syllable dictionary from its JSON text: a top-level object
    /// whose keys are Yi characters and whose values are pinyin strings
    /// (or, in the tolerated legacy form, arrays of pinyin strings). When
    /// the text is such an object — `syl_entries_of` names what it parses
    /// to — the syllable tables are built from exactly those entries; on
    /// any other text the load fails with `DictionaryMalformed` and the
    /// engine is left unchanged. Only the parse is trusted, to
    /// `serde_json`.
    pub fn load_dictionary(&mut self, content: &str) -> (r: Result<(), DictError>)
        requires
            old(self).wf(),
        ensures
            final(self).wf(),
            final(self).rad_map() == old(self).rad_map(),
            (match syl_entries_of(content@) {
                Some(es) => r is Ok && final(self).syl_map() == spec_build_syllables(
                    old(self).syl_map(),
                    es,
                ),
                None => r == Err::<(), DictError>(DictError::DictionaryMalformed) && *final(self)
                    == *old(self),
            }),
    {
        match parse_syllable_entries(content) {
            Some(entries) => {
                self.build_syllable_maps(&entries);
                Ok(())
            },
            None => Err(DictError::DictionaryMalformed),
        }
    }

    /// Loads the radical dictionary from its JSON text: a top-level object
    /// whose keys are radicals and whose values are pinyin strings. When
    /// the text is such an object — `rad_entries_of` names what it parses
    /// to — the radical table is built from exactly those entries; on any
    /// other text the load fails with `DictionaryMalformed` and the engine
    /// is left unchanged. Only the parse is trusted, to `serde_json`.
    pub fn load_radical_dictionary(&mut self, content: &str) -> (r: Result<(), DictError>)
        requires
            old(self).wf(),
        ensures
            final(self).wf(),
            final(self).syl_map() == old(self).syl_map(),
            final(self).syllable_set == old(self).syllable_set,
            (match rad_entries_of(content@) {
                Some(es) => r is Ok && final(self).rad_map() == spec_build_radicals(
                    old(self).rad_map(),
                    es,
                ),
                None => r == Err::<(), DictError>(DictError::DictionaryMalformed) && *final(self)
                    == *old(self),
            }),
    {
        match parse_radical_entries(content) {
            Some(entries) => {
                self.build_radical_map(&entries);
                Ok(())
            },
            None => Err(DictError::DictionaryMalformed),
        }
    }
}

} // verus!
