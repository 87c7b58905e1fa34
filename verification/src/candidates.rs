//! The candidate builder: the validity predicate that decides whether a
//! keystroke may extend the buffer, the consonant-completion search with
//! its two ordered bands, and the decision ladder that turns a buffer
//! into the candidate list the window shows.

use vstd::prelude::*;
use vstd::string::*;
use crate::strutil::{str_eq, str_starts_with, str_lex_lt, is_prefix_of, lex_lt};
use crate::dict::YiIME;
use crate::segmentation::{spec_segment_pinyin, seen_has, string_vec_contains};
use crate::conversion::spec_smart_convert;

verus! {

/// Some syllable or radical pinyin starts with `s`.
pub open spec fn spec_potential_consonant(d: YiIME, s: Seq<char>) -> bool {
    (exists|i: int| 0 <= i < d.syl_map().len() && is_prefix_of(s, #[trigger] d.syl_map()[i].0))
        || (exists|i: int|
        0 <= i < d.rad_map().len() && is_prefix_of(s, #[trigger] d.rad_map()[i].0))
}

/// A buffer may be extended while it can still lead somewhere: it is a
/// complete syllable, or the segmenter accepts it whole, or some syllable
/// or radical pinyin starts with it; or it is `w` alone (reserved for the
/// reference mark), or ends in `w` over a prefix any of the first three
/// clauses accepts.
pub open spec fn spec_valid_input(d: YiIME, s: Seq<char>) -> bool {
    ||| s == "w"@
    ||| (s.len() > 1 && s.last() == 'w' && (d.spec_has_syllable(s.drop_last())
        || spec_segment_pinyin(d, s.drop_last()).len() > 0 || spec_potential_consonant(
        d,
        s.drop_last(),
    )))
    ||| d.spec_has_syllable(s)
    ||| spec_segment_pinyin(d, s).len() > 0
    ||| spec_potential_consonant(d, s)
}

/// A completion pinyin counts as the consonant's own canonical syllable:
/// for a one-letter buffer, its second letter is a vowel; for a longer
/// buffer, it starts with the buffer.
pub open spec fn is_consonant_itself(buf: Seq<char>, p: Seq<char>) -> bool {
    if buf.len() == 1 {
        p.len() >= 2 && (p[1] == 'a' || p[1] == 'e' || p[1] == 'i' || p[1] == 'o' || p[1] == 'u')
    } else {
        is_prefix_of(buf, p)
    }
}

impl YiIME {
    /// Whether some syllable or radical pinyin starts with `input`.
    #[verifier::loop_isolation(false)]
    pub fn is_potential_consonant(&self, input: &str) -> (r: bool)
        ensures
            r == spec_potential_consonant(*self, input@),
    {
        let mut i: usize = 0;
        while i < self.pinyin_index.len()
            invariant
                0 <= i <= self.pinyin_index@.len(),
                forall|j: int| 0 <= j < i ==> !is_prefix_of(input@, #[trigger] self.syl_map()[j].0),
            decreases self.pinyin_index@.len() - i,
        {
            proof {
                assert(self.syl_map()[i as int].0 == self.pinyin_index@[i as int].0@);
            }
            if str_starts_with(self.pinyin_index[i].0.as_str(), input) {
                return true;
            }
            i += 1;
        }
        let mut k: usize = 0;
        while k < self.radical_pinyin_index.len()
            invariant
                0 <= k <= self.radical_pinyin_index@.len(),
                forall|j: int|
                    0 <= j < self.syl_map().len() ==> !is_prefix_of(
                        input@,
                        #[trigger] self.syl_map()[j].0,
                    ),
                forall|j: int| 0 <= j < k ==> !is_prefix_of(input@, #[trigger] self.rad_map()[j].0),
            decreases self.radical_pinyin_index@.len() - k,
        {
            proof {
                assert(self.rad_map()[k as int].0 == self.radical_pinyin_index@[k as int].0@);
            }
            if str_starts_with(self.radical_pinyin_index[k].0.as_str(), input) {
                return true;
            }
            k += 1;
        }
        false
    }
}

/// The candidate builder; it owns the engine it consults.
pub struct CandidateManager {
    pub yi_engine: YiIME,
}

/// What the session asks the candidate window to do after a key event.
pub enum WindowCommand {
    Hide,
    Show { candidates: Vec<String>, input: String },
}

impl CandidateManager {
    /// A builder around the given engine.
    pub fn new(yi_engine: YiIME) -> (r: Self)
        ensures
            r.yi_engine == yi_engine,
    {
        CandidateManager { yi_engine }
    }

    /// The validity predicate the session consults before accepting a
    /// keystroke.
    pub fn is_valid_input_sequence(&self, input: &str) -> (r: bool)
        requires
            self.yi_engine.wf(),
            input@.len() < usize::MAX,
        ensures
            r == spec_valid_input(self.yi_engine, input@),
    {
        let d = &self.yi_engine;
        if str_eq(input, "w") {
            return true;
        }
        let n: usize = input.unicode_len();
        if n > 1 && input.get_char(n - 1) == 'w' {
            let base: &str = input.substring_char(0, n - 1);
            proof {
                assert(base@ =~= input@.drop_last());
            }
            if d.contains_syllable(base) {
                return true;
            }
            let rs = d.segment_pinyin(base);
            if rs.len() > 0 {
                return true;
            }
            if d.is_potential_consonant(base) {
                return true;
            }
        }
        if d.contains_syllable(input) {
            return true;
        }
        let rs = d.segment_pinyin(input);
        if rs.len() > 0 {
            return true;
        }
        d.is_potential_consonant(input)
    }
}

/// A buffer of one letter is a valid prefix whenever some syllable starts
/// with that letter — in particular every ambiguous letter that opens a
/// syllable.
pub proof fn lemma_single_letter_valid(d: YiIME, s: Seq<char>)
    requires
        s.len() == 1,
        exists|i: int| 0 <= i < d.syl_map().len() && is_prefix_of(s, #[trigger] d.syl_map()[i].0),
    ensures
        spec_valid_input(d, s),
{
}

/// The lone letter `w` is a valid prefix, whatever the dictionary holds:
/// it is reserved for the reference-mark expansion.
pub proof fn lemma_w_alone_valid(d: YiIME, s: Seq<char>)
    requires
        s == "w"@,
    ensures
        spec_valid_input(d, s),
{
}

/// The (Yi character, pinyin) completion pairs drawn from the syllable
/// map for keys starting with `buf`, in map order.
pub open spec fn spec_consonant_pairs(
    m: Seq<(Seq<char>, Seq<Seq<char>>)>,
    buf: Seq<char>,
) -> Seq<(Seq<char>, Seq<char>)>
    decreases m.len(),
{
    if m.len() == 0 {
        Seq::empty()
    } else {
        let here = if is_prefix_of(buf, m[0].0) {
            Seq::new(m[0].1.len(), |k: int| (m[0].1[k], m[0].0))
        } else {
            Seq::empty()
        };
        here + spec_consonant_pairs(m.skip(1), buf)
    }
}

/// The (radical, pinyin) completion pairs drawn from the radical table.
pub open spec fn spec_radical_pairs(
    rm: Seq<(Seq<char>, Seq<char>)>,
    buf: Seq<char>,
) -> Seq<(Seq<char>, Seq<char>)>
    decreases rm.len(),
{
    if rm.len() == 0 {
        Seq::empty()
    } else {
        let here = if is_prefix_of(buf, rm[0].0) {
            seq![(rm[0].1, rm[0].0)]
        } else {
            Seq::<(Seq<char>, Seq<char>)>::empty()
        };
        here + spec_radical_pairs(rm.skip(1), buf)
    }
}

/// Strict lexicographic order on completion pairs.
pub open spec fn pair_lt(a: (Seq<char>, Seq<char>), b: (Seq<char>, Seq<char>)) -> bool {
    lex_lt(a.0, b.0) || (a.0 == b.0 && lex_lt(a.1, b.1))
}

/// Insertion into a lexicographically sorted pair sequence; equal pairs
/// keep their order.
pub open spec fn spec_insert_pair(
    s: Seq<(Seq<char>, Seq<char>)>,
    x: (Seq<char>, Seq<char>),
) -> Seq<(Seq<char>, Seq<char>)>
    decreases s.len(),
{
    if s.len() == 0 {
        seq![x]
    } else if pair_lt(x, s.last()) {
        spec_insert_pair(s.drop_last(), x).push(s.last())
    } else {
        s.push(x)
    }
}

/// Stable lexicographic sort of completion pairs.
pub open spec fn spec_sort_pairs(s: Seq<(Seq<char>, Seq<char>)>) -> Seq<(Seq<char>, Seq<char>)>
    decreases s.len(),
{
    if s.len() == 0 {
        Seq::empty()
    } else {
        spec_insert_pair(spec_sort_pairs(s.drop_last()), s.last())
    }
}

/// The pairs whose pinyin does (or does not) count as the consonant's own
/// canonical syllable, in order.
pub open spec fn spec_filter_pairs(
    ps: Seq<(Seq<char>, Seq<char>)>,
    buf: Seq<char>,
    want: bool,
) -> Seq<(Seq<char>, Seq<char>)>
    decreases ps.len(),
{
    if ps.len() == 0 {
        Seq::empty()
    } else {
        let rest = spec_filter_pairs(ps.skip(1), buf, want);
        if is_consonant_itself(buf, ps[0].1) == want {
            seq![ps[0]] + rest
        } else {
            rest
        }
    }
}

/// Adjacent duplicates collapsed to one.
pub open spec fn spec_dedup_adj(s: Seq<(Seq<char>, Seq<char>)>) -> Seq<(Seq<char>, Seq<char>)>
    decreases s.len(),
{
    if s.len() == 0 {
        Seq::empty()
    } else if s.len() >= 2 && s[0] == s[1] {
        spec_dedup_adj(s.skip(1))
    } else {
        seq![s[0]] + spec_dedup_adj(s.skip(1))
    }
}

/// The ordered consonant completions of a buffer: the canonical band
/// first, then the rest, each band sorted lexicographically with
/// duplicates removed.
pub open spec fn spec_sorted_consonant(d: YiIME, buf: Seq<char>) -> Seq<(Seq<char>, Seq<char>)> {
    let all = spec_consonant_pairs(d.syl_map(), buf) + spec_radical_pairs(d.rad_map(), buf);
    spec_dedup_adj(spec_sort_pairs(spec_filter_pairs(all, buf, true))) + spec_dedup_adj(
        spec_sort_pairs(spec_filter_pairs(all, buf, false)),
    )
}

proof fn lemma_insert_pair_at(s: Seq<(Seq<char>, Seq<char>)>, x: (Seq<char>, Seq<char>), pos: int)
    requires
        0 <= pos <= s.len(),
        forall|k: int| pos <= k < s.len() ==> pair_lt(x, #[trigger] s[k]),
        pos > 0 ==> !pair_lt(x, s[pos - 1]),
    ensures
        spec_insert_pair(s, x) =~= s.take(pos) + seq![x] + s.skip(pos),
    decreases s.len(),
{
    if s.len() == 0 {
    } else if pos == s.len() {
        assert(spec_insert_pair(s, x) == s.push(x));
    } else {
        assert(pair_lt(x, s[s.len() - 1]));
        assert forall|k: int| pos <= k < s.drop_last().len() implies pair_lt(
            x,
            #[trigger] s.drop_last()[k],
        ) by {
            assert(s.drop_last()[k] == s[k]);
        }
        if pos > 0 {
            assert(s.drop_last()[pos - 1] == s[pos - 1]);
        }
        lemma_insert_pair_at(s.drop_last(), x, pos);
    }
}

/// Whether `a` strictly precedes `b` in the pair order.
fn pair_lt_exec(a: &(String, String), b: &(String, String)) -> (r: bool)
    ensures
        r == pair_lt((a.0@, a.1@), (b.0@, b.1@)),
{
    if str_lex_lt(a.0.as_str(), b.0.as_str()) {
        true
    } else if str_eq(a.0.as_str(), b.0.as_str()) {
        str_lex_lt(a.1.as_str(), b.1.as_str())
    } else {
        false
    }
}

/// Whether two pairs hold the same strings.
fn pair_eq_exec(a: &(String, String), b: &(String, String)) -> (r: bool)
    ensures
        r == ((a.0@, a.1@) == (b.0@, b.1@)),
{
    let r = str_eq(a.0.as_str(), b.0.as_str()) && str_eq(a.1.as_str(), b.1.as_str());
    proof {
        if a.0@ == b.0@ && a.1@ == b.1@ {
            assert((a.0@, a.1@) == (b.0@, b.1@));
        }
    }
    r
}

/// Sorts pairs lexicographically, stably.
#[verifier::loop_isolation(false)]
fn sort_pairs_exec(pairs: Vec<(String, String)>) -> (out: Vec<(String, String)>)
    ensures
        out.deep_view() == spec_sort_pairs(pairs.deep_view()),
{
    let ghost pv = pairs.deep_view();
    let mut out: Vec<(String, String)> = Vec::new();
    let mut k: usize = 0;
    proof {
        assert(pv.take(0) =~= Seq::<(Seq<char>, Seq<char>)>::empty());
        assert(out.deep_view() =~= spec_sort_pairs(pv.take(0)));
    }
    while k < pairs.len()
        invariant
            0 <= k <= pairs@.len(),
            pv == pairs.deep_view(),
            out.deep_view() == spec_sort_pairs(pv.take(k as int)),
        decreases pairs@.len() - k,
    {
        let ghost pre_out = out.deep_view();
        proof {
            assert(pairs@[k as int].0@ == pv[k as int].0);
            assert(pairs@[k as int].1@ == pv[k as int].1);
        }
        let mut pos: usize = out.len();
        while pos > 0 && pair_lt_exec(&pairs[k], &out[pos - 1])
            invariant
                0 <= pos <= out@.len(),
                pre_out == out.deep_view(),
                0 <= k < pairs@.len(),
                forall|t: int|
                    pos <= t < out@.len() ==> pair_lt(pv[k as int], #[trigger] out.deep_view()[t]),
            decreases pos,
        {
            proof {
                assert(out.deep_view()[pos - 1] == (out@[pos - 1].0@, out@[pos - 1].1@));
            }
            pos -= 1;
        }
        proof {
            if pos > 0 {
                assert(out.deep_view()[pos - 1] == (out@[pos - 1].0@, out@[pos - 1].1@));
            }
        }
        let entry: (String, String) = (pairs[k].0.clone(), pairs[k].1.clone());
        out.insert(pos, entry);
        proof {
            lemma_insert_pair_at(pre_out, pv[k as int], pos as int);
            assert(out.deep_view() =~= pre_out.take(pos as int) + seq![pv[k as int]]
                + pre_out.skip(pos as int));
            assert(pv.take(k as int + 1).drop_last() =~= pv.take(k as int));
            assert(pv.take(k as int + 1).last() == pv[k as int]);
            assert(out.deep_view() =~= spec_sort_pairs(pv.take(k as int + 1)));
        }
        k += 1;
    }
    proof {
        assert(pv.take(pv.len() as int) =~= pv);
    }
    out
}

/// Collapses adjacent duplicate pairs.
#[verifier::loop_isolation(false)]
fn dedup_pairs_exec(pairs: Vec<(String, String)>) -> (out: Vec<(String, String)>)
    ensures
        out.deep_view() == spec_dedup_adj(pairs.deep_view()),
{
    let ghost pv = pairs.deep_view();
    let mut out: Vec<(String, String)> = Vec::new();
    let mut i: usize = 0;
    proof {
        assert(pv.skip(0) =~= pv);
        assert(out.deep_view() + spec_dedup_adj(pv.skip(0)) =~= spec_dedup_adj(pv));
    }
    while i < pairs.len()
        invariant
            0 <= i <= pairs@.len(),
            pv == pairs.deep_view(),
            out.deep_view() + spec_dedup_adj(pv.skip(i as int)) =~= spec_dedup_adj(pv),
        decreases pairs@.len() - i,
    {
        let ghost out0 = out.deep_view();
        proof {
            assert(pv.skip(i as int)[0] == pv[i as int]);
            assert(pv.skip(i as int).skip(1) =~= pv.skip(i as int + 1));
            assert(pairs@[i as int].0@ == pv[i as int].0);
            assert(pairs@[i as int].1@ == pv[i as int].1);
        }
        let skip_this: bool = if i + 1 < pairs.len() {
            proof {
                assert(pairs@[i as int + 1].0@ == pv[i as int + 1].0);
                assert(pairs@[i as int + 1].1@ == pv[i as int + 1].1);
                assert(pv.skip(i as int)[1] == pv[i as int + 1]);
            }
            pair_eq_exec(&pairs[i], &pairs[i + 1])
        } else {
            false
        };
        if !skip_this {
            let entry: (String, String) = (pairs[i].0.clone(), pairs[i].1.clone());
            out.push(entry);
            proof {
                assert(out.deep_view() =~= out0.push(pv[i as int]));
                assert(out.deep_view() + spec_dedup_adj(pv.skip(i as int + 1)) =~= out0 + (seq![
                    pv[i as int],
                ] + spec_dedup_adj(pv.skip(i as int + 1))));
            }
        }
        i += 1;
    }
    proof {
        assert(spec_dedup_adj(pv.skip(pv.len() as int)) =~= Seq::<(Seq<char>, Seq<char>)>::empty());
        assert(out.deep_view() =~= spec_dedup_adj(pv));
    }
    out
}

impl CandidateManager {
    /// Whether a completion pinyin counts as the buffer consonant's own
    /// canonical syllable.
    fn is_consonant_itself_candidate(&self, consonant: &str, pinyin: &str) -> (r: bool)
        ensures
            r == is_consonant_itself(consonant@, pinyin@),
    {
        let n: usize = consonant.unicode_len();
        if n == 1 {
            let pn: usize = pinyin.unicode_len();
            if pn >= 2 {
                let c: char = pinyin.get_char(1);
                c == 'a' || c == 'e' || c == 'i' || c == 'o' || c == 'u'
            } else {
                false
            }
        } else {
            str_starts_with(pinyin, consonant)
        }
    }

    /// The consonant completions of the buffer, canonical band first,
    /// each band sorted lexicographically and deduplicated.
    #[verifier::loop_isolation(false)]
    pub fn get_sorted_consonant_results(&self, input_buffer: &str) -> (out: Vec<(String, String)>)
        ensures
            out.deep_view() == spec_sorted_consonant(self.yi_engine, input_buffer@),
    {
        let d = &self.yi_engine;
        let ghost m = d.syl_map();
        let ghost rm = d.rad_map();
        let mut all: Vec<(String, String)> = Vec::new();
        let mut i: usize = 0;
        proof {
            assert(m.skip(0) =~= m);
            assert(all.deep_view() + spec_consonant_pairs(m.skip(0), input_buffer@)
                =~= spec_consonant_pairs(m, input_buffer@));
        }
        while i < d.pinyin_index.len()
            invariant
                0 <= i <= d.pinyin_index@.len(),
                all.deep_view() + spec_consonant_pairs(m.skip(i as int), input_buffer@)
                    =~= spec_consonant_pairs(m, input_buffer@),
            decreases d.pinyin_index@.len() - i,
        {
            let ghost all0 = all.deep_view();
            proof {
                assert(m[i as int] == (
                    d.pinyin_index@[i as int].0@,
                    d.pinyin_index@[i as int].1.deep_view(),
                ));
                assert(m.skip(i as int)[0] == m[i as int]);
                assert(m.skip(i as int).skip(1) =~= m.skip(i as int + 1));
            }
            if str_starts_with(d.pinyin_index[i].0.as_str(), input_buffer) {
                let chars: &Vec<String> = &d.pinyin_index[i].1;
                let ghost cv = m[i as int].1;
                let ghost key = m[i as int].0;
                let ghost g: spec_fn(int) -> (Seq<char>, Seq<char>) = |k: int| (cv[k], key);
                let mut k: usize = 0;
                proof {
                    assert(all.deep_view() =~= all0 + Seq::new(0, g));
                }
                while k < chars.len()
                    invariant
                        0 <= k <= chars@.len(),
                        0 <= i < d.pinyin_index@.len(),
                        chars.deep_view() == cv,
                        all.deep_view() =~= all0 + Seq::new(k as nat, g),
                    decreases chars@.len() - k,
                {
                    let entry: (String, String) = (chars[k].clone(), d.pinyin_index[i].0.clone());
                    let ghost before = all.deep_view();
                    all.push(entry);
                    proof {
                        assert(chars@[k as int]@ == cv[k as int]);
                        assert(all.deep_view() =~= before.push(g(k as int)));
                        assert(Seq::new((k + 1) as nat, g) =~= Seq::new(k as nat, g).push(
                            g(k as int),
                        ));
                    }
                    k += 1;
                }
                proof {
                    assert(Seq::new(cv.len(), g) =~= Seq::new(cv.len(), |t: int| (cv[t], key)));
                    assert(all.deep_view() + spec_consonant_pairs(m.skip(i as int + 1), input_buffer@)
                        =~= spec_consonant_pairs(m, input_buffer@));
                }
            }
            i += 1;
        }
        proof {
            assert(spec_consonant_pairs(m.skip(m.len() as int), input_buffer@)
                =~= Seq::<(Seq<char>, Seq<char>)>::empty());
            assert(all.deep_view() =~= spec_consonant_pairs(m, input_buffer@));
            assert(rm.skip(0) =~= rm);
        }
        let ghost syl_part = all.deep_view();
        let mut j: usize = 0;
        while j < d.radical_pinyin_index.len()
            invariant
                0 <= j <= d.radical_pinyin_index@.len(),
                all.deep_view() + spec_radical_pairs(rm.skip(j as int), input_buffer@) =~= syl_part
                    + spec_radical_pairs(rm, input_buffer@),
            decreases d.radical_pinyin_index@.len() - j,
        {
            let ghost all0 = all.deep_view();
            proof {
                assert(rm[j as int] == (
                    d.radical_pinyin_index@[j as int].0@,
                    d.radical_pinyin_index@[j as int].1@,
                ));
                assert(rm.skip(j as int)[0] == rm[j as int]);
                assert(rm.skip(j as int).skip(1) =~= rm.skip(j as int + 1));
            }
            if str_starts_with(d.radical_pinyin_index[j].0.as_str(), input_buffer) {
                let entry: (String, String) = (
                    d.radical_pinyin_index[j].1.clone(),
                    d.radical_pinyin_index[j].0.clone(),
                );
                all.push(entry);
                proof {
                    assert(all.deep_view() =~= all0.push((rm[j as int].1, rm[j as int].0)));
                    assert(all.deep_view() + spec_radical_pairs(rm.skip(j as int + 1), input_buffer@)
                        =~= all0 + (seq![(rm[j as int].1, rm[j as int].0)] + spec_radical_pairs(
                        rm.skip(j as int + 1),
                        input_buffer@,
                    )));
                }
            }
            j += 1;
        }
        proof {
            assert(spec_radical_pairs(rm.skip(rm.len() as int), input_buffer@)
                =~= Seq::<(Seq<char>, Seq<char>)>::empty());
            assert(all.deep_view() =~= spec_consonant_pairs(m, input_buffer@) + spec_radical_pairs(
                rm,
                input_buffer@,
            ));
        }
        let ghost all_v = all.deep_view();
        let mut priority: Vec<(String, String)> = Vec::new();
        let mut others: Vec<(String, String)> = Vec::new();
        let mut t: usize = 0;
        proof {
            assert(all_v.skip(0) =~= all_v);
            assert(priority.deep_view() + spec_filter_pairs(all_v.skip(0), input_buffer@, true)
                =~= spec_filter_pairs(all_v, input_buffer@, true));
            assert(others.deep_view() + spec_filter_pairs(all_v.skip(0), input_buffer@, false)
                =~= spec_filter_pairs(all_v, input_buffer@, false));
        }
        while t < all.len()
            invariant
                0 <= t <= all@.len(),
                all_v == all.deep_view(),
                priority.deep_view() + spec_filter_pairs(
                    all_v.skip(t as int),
                    input_buffer@,
                    true,
                ) =~= spec_filter_pairs(all_v, input_buffer@, true),
                others.deep_view() + spec_filter_pairs(
                    all_v.skip(t as int),
                    input_buffer@,
                    false,
                ) =~= spec_filter_pairs(all_v, input_buffer@, false),
            decreases all@.len() - t,
        {
            let ghost p0 = priority.deep_view();
            let ghost o0 = others.deep_view();
            proof {
                assert(all_v.skip(t as int)[0] == all_v[t as int]);
                assert(all_v.skip(t as int).skip(1) =~= all_v.skip(t as int + 1));
                assert(all@[t as int].1@ == all_v[t as int].1);
                assert(all@[t as int].0@ == all_v[t as int].0);
            }
            let entry: (String, String) = (all[t].0.clone(), all[t].1.clone());
            if self.is_consonant_itself_candidate(input_buffer, all[t].1.as_str()) {
                priority.push(entry);
                proof {
                    assert(priority.deep_view() =~= p0.push(all_v[t as int]));
                    assert(priority.deep_view() + spec_filter_pairs(
                        all_v.skip(t as int + 1),
                        input_buffer@,
                        true,
                    ) =~= p0 + (seq![all_v[t as int]] + spec_filter_pairs(
                        all_v.skip(t as int + 1),
                        input_buffer@,
                        true,
                    )));
                }
            } else {
                others.push(entry);
                proof {
                    assert(others.deep_view() =~= o0.push(all_v[t as int]));
                    assert(others.deep_view() + spec_filter_pairs(
                        all_v.skip(t as int + 1),
                        input_buffer@,
                        false,
                    ) =~= o0 + (seq![all_v[t as int]] + spec_filter_pairs(
                        all_v.skip(t as int + 1),
                        input_buffer@,
                        false,
                    )));
                }
            }
            t += 1;
        }
        proof {
            assert(spec_filter_pairs(all_v.skip(all_v.len() as int), input_buffer@, true)
                =~= Seq::<(Seq<char>, Seq<char>)>::empty());
            assert(spec_filter_pairs(all_v.skip(all_v.len() as int), input_buffer@, false)
                =~= Seq::<(Seq<char>, Seq<char>)>::empty());
            assert(priority.deep_view() =~= spec_filter_pairs(all_v, input_buffer@, true));
            assert(others.deep_view() =~= spec_filter_pairs(all_v, input_buffer@, false));
        }
        let priority_sorted = sort_pairs_exec(priority);
        let priority_final = dedup_pairs_exec(priority_sorted);
        let others_sorted = sort_pairs_exec(others);
        let others_final = dedup_pairs_exec(others_sorted);
        let ghost pf = priority_final.deep_view();
        let mut out = priority_final;
        let mut u: usize = 0;
        proof {
            assert(out.deep_view() =~= pf + others_final.deep_view().take(0));
        }
        while u < others_final.len()
            invariant
                0 <= u <= others_final@.len(),
                out.deep_view() =~= pf + others_final.deep_view().take(u as int),
            decreases others_final@.len() - u,
        {
            let ghost out0 = out.deep_view();
            let entry: (String, String) = (others_final[u].0.clone(), others_final[u].1.clone());
            out.push(entry);
            proof {
                assert(others_final.deep_view()[u as int] == (
                    others_final@[u as int].0@,
                    others_final@[u as int].1@,
                ));
                assert(out.deep_view() =~= out0.push(others_final.deep_view()[u as int]));
                assert(others_final.deep_view().take(u as int + 1) =~= others_final.deep_view().take(
                    u as int,
                ).push(others_final.deep_view()[u as int]));
            }
            u += 1;
        }
        proof {
            assert(others_final.deep_view().take(others_final.deep_view().len() as int)
                =~= others_final.deep_view());
            assert(out.deep_view() =~= spec_sorted_consonant(self.yi_engine, input_buffer@));
        }
        out
    }
}

/// A candidate item: the Yi text, a space, and the annotation in
/// parentheses.
pub open spec fn fmt_item(yi: Seq<char>, ann: Seq<char>) -> Seq<char> {
    yi + seq![' ', '('] + ann + seq![')']
}

/// A radical candidate item: the radical marker, the radical, and the
/// annotation in parentheses.
pub open spec fn fmt_radical_item(r: Seq<char>, ann: Seq<char>) -> Seq<char> {
    crate::queries::radical_tag() + r + seq![' ', '('] + ann + seq![')']
}

/// The exact-syllable items: up to three of the buffer's own characters.
pub open spec fn fill_exact(cs: Seq<Seq<char>>, buf: Seq<char>) -> Seq<Seq<char>> {
    let n = if cs.len() <= 3 {
        cs.len() as int
    } else {
        3
    };
    Seq::new(n as nat, |k: int| fmt_item(cs[k], buf))
}

/// The consonant-completion items, walked in band order until the list
/// holds nine; for an exact-syllable buffer the completions equal to the
/// buffer are skipped.
pub open spec fn fill_consonants(
    pairs: Seq<(Seq<char>, Seq<char>)>,
    exact: bool,
    buf: Seq<char>,
    cur: int,
) -> Seq<Seq<char>>
    decreases pairs.len(),
{
    if pairs.len() == 0 || cur >= 9 {
        Seq::empty()
    } else if exact && pairs[0].1 == buf {
        fill_consonants(pairs.skip(1), exact, buf, cur)
    } else {
        seq![fmt_item(pairs[0].0, pairs[0].1)] + fill_consonants(pairs.skip(1), exact, buf, cur + 1)
    }
}

/// The items of one converted reading, until the list holds nine.
pub open spec fn fill_one_reading(ys: Seq<Seq<char>>, seg: Seq<char>, cur: int) -> Seq<Seq<char>>
    decreases ys.len(),
{
    if ys.len() == 0 || cur >= 9 {
        Seq::empty()
    } else {
        seq![fmt_item(ys[0], seg)] + fill_one_reading(ys.skip(1), seg, cur + 1)
    }
}

/// The smart-conversion items, reading by reading, until the list holds
/// nine.
pub open spec fn fill_smart(ts: Seq<(Seq<char>, Seq<Seq<char>>, u64)>, cur: int) -> Seq<Seq<char>>
    decreases ts.len(),
{
    if ts.len() == 0 || cur >= 9 {
        Seq::empty()
    } else {
        let h = fill_one_reading(ts[0].1, ts[0].0, cur);
        h + fill_smart(ts.skip(1), cur + h.len())
    }
}

/// The candidate list of a valid, non-empty buffer: the exact-syllable
/// items, then consonant completions for short buffers, then smart
/// conversion while slots remain; a radical side-candidate is put first
/// when the buffer is a syllable keying a radical; at most nine items in
/// all.
pub open spec fn spec_candidate_list(d: YiIME, buf: Seq<char>) -> Seq<Seq<char>> {
    let exact = d.spec_has_syllable(buf);
    let s1 = if exact {
        fill_exact(d.spec_lookup(buf), buf)
    } else {
        Seq::<Seq<char>>::empty()
    };
    let s2 = if buf.len() <= 3 && spec_potential_consonant(d, buf) {
        fill_consonants(spec_sorted_consonant(d, buf), exact, buf, s1.len() as int)
    } else {
        Seq::<Seq<char>>::empty()
    };
    let s3 = if s1.len() + s2.len() < 9 {
        fill_smart(spec_smart_convert(d, buf), s1.len() + s2.len() as int)
    } else {
        Seq::<Seq<char>>::empty()
    };
    let base = s1 + s2 + s3;
    let withr = if exact && d.spec_radical(buf) is Some {
        seq![fmt_radical_item(d.spec_radical(buf).unwrap(), buf)] + base
    } else {
        base
    };
    let deduped = spec_dedup_items(withr, Seq::empty());
    if deduped.len() > 9 {
        deduped.take(9)
    } else {
        deduped
    }
}

/// Repeated items collapsed to their first occurrence; `seen` holds the
/// items already emitted.
pub open spec fn spec_dedup_items(s: Seq<Seq<char>>, seen: Seq<Seq<char>>) -> Seq<Seq<char>>
    decreases s.len(),
{
    if s.len() == 0 {
        Seq::empty()
    } else if seen_has(seen, s[0]) {
        spec_dedup_items(s.skip(1), seen)
    } else {
        seq![s[0]] + spec_dedup_items(s.skip(1), seen.push(s[0]))
    }
}

/// An item not yet seen keeps a place no later than where it stood.
proof fn lemma_dedup_items_covers(s: Seq<Seq<char>>, seen: Seq<Seq<char>>, u: int)
    requires
        0 <= u < s.len(),
        !seen_has(seen, s[u]),
    ensures
        exists|y: int|
            0 <= y <= u && y < spec_dedup_items(s, seen).len() && #[trigger] spec_dedup_items(
                s,
                seen,
            )[y] == s[u],
    decreases s.len(),
{
    let out = spec_dedup_items(s, seen);
    if seen_has(seen, s[0]) {
        assert(u != 0);
        assert(s.skip(1)[u - 1] == s[u]);
        lemma_dedup_items_covers(s.skip(1), seen, u - 1);
        let y = choose|y: int|
            0 <= y <= u - 1 && y < spec_dedup_items(s.skip(1), seen).len()
                && #[trigger] spec_dedup_items(s.skip(1), seen)[y] == s.skip(1)[u - 1];
        assert(out[y] == s[u]);
    } else if u == 0 || s[u] == s[0] {
        assert(out[0] == s[0]);
    } else {
        assert(s.skip(1)[u - 1] == s[u]);
        if seen_has(seen.push(s[0]), s[u]) {
            let w = choose|w: int|
                0 <= w < seen.push(s[0]).len() && seen.push(s[0])[w] == s[u];
            if w < seen.len() {
                assert(seen[w] == s[u]);
            } else {
                assert(seen.push(s[0])[w] == s[0]);
            }
            assert(false);
        }
        lemma_dedup_items_covers(s.skip(1), seen.push(s[0]), u - 1);
        let y = choose|y: int|
            0 <= y <= u - 1 && y < spec_dedup_items(s.skip(1), seen.push(s[0])).len()
                && #[trigger] spec_dedup_items(s.skip(1), seen.push(s[0]))[y] == s.skip(1)[u - 1];
        assert(out[y + 1] == s[u]);
    }
}

/// Builds `"<yi> (<ann>)"`.
fn make_item(yi: &str, ann: &str) -> (r: String)
    ensures
        r@ == fmt_item(yi@, ann@),
{
    let mut r: String = String::from_str(yi);
    r.push(' ');
    r.push('(');
    r.append(ann);
    r.push(')');
    proof {
        assert(r@ =~= fmt_item(yi@, ann@));
    }
    r
}

/// Builds `"[radical] <r> (<ann>)"`.
fn make_radical_item(rad: &str, ann: &str) -> (r: String)
    ensures
        r@ == fmt_radical_item(rad@, ann@),
{
    let mut r: String = String::from_str("[radical] ");
    r.append(rad);
    r.push(' ');
    r.push('(');
    r.append(ann);
    r.push(')');
    proof {
        assert(r@ =~= fmt_radical_item(rad@, ann@));
    }
    r
}

impl CandidateManager {
    /// The candidate list for a valid, non-empty buffer, as
    /// `spec_candidate_list` states: at most nine items.
    #[verifier::loop_isolation(false)]
    #[verifier::rlimit(100)]
    pub fn candidate_list(&self, buf: &str) -> (out: Vec<String>)
        requires
            self.yi_engine.wf(),
            buf@.len() < usize::MAX,
        ensures
            out.deep_view() == spec_candidate_list(self.yi_engine, buf@),
            out@.len() <= 9,
    {
        let d = &self.yi_engine;
        let exact: bool = d.contains_syllable(buf);
        let mut out: Vec<String> = Vec::new();
        if exact {
            let cs: Vec<String> = d.lookup(buf);
            let ghost cv = cs.deep_view();
            let limit: usize = if cs.len() <= 3 {
                cs.len()
            } else {
                3
            };
            let ghost g: spec_fn(int) -> Seq<char> = |k: int| fmt_item(cv[k], buf@);
            let mut k: usize = 0;
            proof {
                assert(out.deep_view() =~= Seq::new(0, g));
            }
            while k < limit
                invariant
                    0 <= k <= limit,
                    limit <= cs@.len(),
                    cv == cs.deep_view(),
                    out.deep_view() =~= Seq::new(k as nat, g),
                decreases limit - k,
            {
                let item = make_item(cs[k].as_str(), buf);
                let ghost before = out.deep_view();
                out.push(item);
                proof {
                    assert(cs@[k as int]@ == cv[k as int]);
                    assert(out.deep_view() =~= before.push(g(k as int)));
                    assert(Seq::new((k + 1) as nat, g) =~= Seq::new(k as nat, g).push(g(k as int)));
                }
                k += 1;
            }
            proof {
                assert(out.deep_view() =~= fill_exact(cv, buf@));
            }
        }
        let ghost s1 = out.deep_view();
        proof {
            if exact {
                assert(s1 == fill_exact(d.spec_lookup(buf@), buf@));
            } else {
                assert(s1 =~= Seq::<Seq<char>>::empty());
            }
        }
        let buf_len: usize = buf.unicode_len();
        if buf_len <= 3 && d.is_potential_consonant(buf) {
            let pairs: Vec<(String, String)> = self.get_sorted_consonant_results(buf);
            let ghost pv = pairs.deep_view();
            let mut idx: usize = 0;
            proof {
                assert(pv.skip(0) =~= pv);
                assert(out.deep_view() + fill_consonants(pv.skip(0), exact, buf@, s1.len() as int)
                    =~= s1 + fill_consonants(pv, exact, buf@, s1.len() as int));
            }
            while idx < pairs.len() && out.len() < 9
                invariant
                    0 <= idx <= pairs@.len(),
                    pv == pairs.deep_view(),
                    out@.len() >= s1.len(),
                    out.deep_view() + fill_consonants(
                        pv.skip(idx as int),
                        exact,
                        buf@,
                        out@.len() as int,
                    ) =~= s1 + fill_consonants(pv, exact, buf@, s1.len() as int),
                decreases pairs@.len() - idx,
            {
                let ghost out0 = out.deep_view();
                proof {
                    assert(pv.skip(idx as int)[0] == pv[idx as int]);
                    assert(pv.skip(idx as int).skip(1) =~= pv.skip(idx as int + 1));
                    assert(pairs@[idx as int].0@ == pv[idx as int].0);
                    assert(pairs@[idx as int].1@ == pv[idx as int].1);
                }
                if exact && str_eq(pairs[idx].1.as_str(), buf) {
                    proof {
                        assert(fill_consonants(pv.skip(idx as int), exact, buf@, out0.len() as int)
                            == fill_consonants(
                            pv.skip(idx as int + 1),
                            exact,
                            buf@,
                            out0.len() as int,
                        ));
                    }
                } else {
                    let item = make_item(pairs[idx].0.as_str(), pairs[idx].1.as_str());
                    out.push(item);
                    proof {
                        assert(out.deep_view() =~= out0.push(fmt_item(
                            pv[idx as int].0,
                            pv[idx as int].1,
                        )));
                        assert(out.deep_view() + fill_consonants(
                            pv.skip(idx as int + 1),
                            exact,
                            buf@,
                            out0.len() as int + 1,
                        ) =~= out0 + (seq![fmt_item(pv[idx as int].0, pv[idx as int].1)]
                            + fill_consonants(
                            pv.skip(idx as int + 1),
                            exact,
                            buf@,
                            out0.len() as int + 1,
                        )));
                    }
                }
                idx += 1;
            }
            proof {
                if idx == pairs@.len() {
                    assert(fill_consonants(pv.skip(idx as int), exact, buf@, out@.len() as int)
                        =~= Seq::<Seq<char>>::empty());
                } else {
                    assert(out@.len() >= 9);
                    assert(fill_consonants(pv.skip(idx as int), exact, buf@, out@.len() as int)
                        =~= Seq::<Seq<char>>::empty());
                }
                assert(out.deep_view() =~= s1 + fill_consonants(pv, exact, buf@, s1.len() as int));
            }
        }
        let ghost s12 = out.deep_view();
        proof {
            if buf@.len() <= 3 && spec_potential_consonant(self.yi_engine, buf@) {
                assert(s12 == s1 + fill_consonants(
                    spec_sorted_consonant(self.yi_engine, buf@),
                    self.yi_engine.spec_has_syllable(buf@),
                    buf@,
                    s1.len() as int,
                ));
            } else {
                assert(s12 =~= s1 + Seq::<Seq<char>>::empty());
            }
        }
        if out.len() < 9 {
            let triples: Vec<(String, Vec<String>, u64)> = d.smart_convert(buf);
            let ghost tv = triples.deep_view();
            let mut t: usize = 0;
            proof {
                assert(tv.skip(0) =~= tv);
                assert(out.deep_view() + fill_smart(tv.skip(0), s12.len() as int) =~= s12
                    + fill_smart(tv, s12.len() as int));
            }
            while t < triples.len() && out.len() < 9
                invariant
                    0 <= t <= triples@.len(),
                    tv == triples.deep_view(),
                    out@.len() >= s12.len(),
                    out.deep_view() + fill_smart(tv.skip(t as int), out@.len() as int) =~= s12
                        + fill_smart(tv, s12.len() as int),
                decreases triples@.len() - t,
            {
                let ghost out_t = out.deep_view();
                proof {
                    assert(tv.skip(t as int)[0] == tv[t as int]);
                    assert(tv.skip(t as int).skip(1) =~= tv.skip(t as int + 1));
                    assert(triples@[t as int].0@ == tv[t as int].0);
                    assert(triples@[t as int].1.deep_view() == tv[t as int].1);
                }
                let items: &Vec<String> = &triples[t].1;
                let ghost iv = tv[t as int].1;
                let mut u: usize = 0;
                proof {
                    assert(iv.skip(0) =~= iv);
                    assert(out.deep_view() + fill_one_reading(
                        iv.skip(0),
                        tv[t as int].0,
                        out@.len() as int,
                    ) =~= out_t + fill_one_reading(iv, tv[t as int].0, out_t.len() as int));
                }
                while u < items.len() && out.len() < 9
                    invariant
                        0 <= u <= items@.len(),
                        0 <= t < triples@.len(),
                        tv == triples.deep_view(),
                        iv == items.deep_view(),
                        iv == tv[t as int].1,
                        out@.len() >= out_t.len(),
                        out.deep_view() + fill_one_reading(
                            iv.skip(u as int),
                            tv[t as int].0,
                            out@.len() as int,
                        ) =~= out_t + fill_one_reading(iv, tv[t as int].0, out_t.len() as int),
                    decreases items@.len() - u,
                {
                    let ghost out0 = out.deep_view();
                    proof {
                        assert(iv.skip(u as int)[0] == iv[u as int]);
                        assert(iv.skip(u as int).skip(1) =~= iv.skip(u as int + 1));
                        assert(items@[u as int]@ == iv[u as int]);
                    }
                    let item = make_item(items[u].as_str(), triples[t].0.as_str());
                    out.push(item);
                    proof {
                        assert(out.deep_view() =~= out0.push(fmt_item(
                            iv[u as int],
                            tv[t as int].0,
                        )));
                        assert(out.deep_view() + fill_one_reading(
                            iv.skip(u as int + 1),
                            tv[t as int].0,
                            out0.len() as int + 1,
                        ) =~= out0 + (seq![fmt_item(iv[u as int], tv[t as int].0)]
                            + fill_one_reading(
                            iv.skip(u as int + 1),
                            tv[t as int].0,
                            out0.len() as int + 1,
                        )));
                    }
                    u += 1;
                }
                proof {
                    if u < items@.len() {
                        assert(out@.len() >= 9);
                        assert(fill_one_reading(iv.skip(u as int), tv[t as int].0, out@.len() as int)
                            =~= Seq::<Seq<char>>::empty());
                    } else {
                        assert(fill_one_reading(iv.skip(u as int), tv[t as int].0, out@.len() as int)
                            =~= Seq::<Seq<char>>::empty());
                    }
                    assert(out.deep_view() =~= out_t + fill_one_reading(
                        iv,
                        tv[t as int].0,
                        out_t.len() as int,
                    ));
                    lemma_fill_one_reading_len(iv, tv[t as int].0, out_t.len() as int);
                    assert(out.deep_view() + fill_smart(tv.skip(t as int + 1), out@.len() as int)
                        =~= s12 + fill_smart(tv, s12.len() as int));
                }
                t += 1;
            }
            proof {
                if t == triples@.len() {
                    assert(fill_smart(tv.skip(t as int), out@.len() as int)
                        =~= Seq::<Seq<char>>::empty());
                } else {
                    assert(out@.len() >= 9);
                    assert(fill_smart(tv.skip(t as int), out@.len() as int)
                        =~= Seq::<Seq<char>>::empty());
                }
                assert(out.deep_view() =~= s12 + fill_smart(tv, s12.len() as int));
            }
        }
        let ghost base = out.deep_view();
        proof {
            let dd = self.yi_engine;
            let exact_s = dd.spec_has_syllable(buf@);
            let sp1 = if exact_s {
                fill_exact(dd.spec_lookup(buf@), buf@)
            } else {
                Seq::<Seq<char>>::empty()
            };
            let sp2 = if buf@.len() <= 3 && spec_potential_consonant(dd, buf@) {
                fill_consonants(spec_sorted_consonant(dd, buf@), exact_s, buf@, sp1.len() as int)
            } else {
                Seq::<Seq<char>>::empty()
            };
            let sp3 = if sp1.len() + sp2.len() < 9 {
                fill_smart(spec_smart_convert(dd, buf@), sp1.len() + sp2.len() as int)
            } else {
                Seq::<Seq<char>>::empty()
            };
            assert(base =~= sp1 + sp2 + sp3);
        }
        if exact {
            match d.get_radical_candidate(buf) {
                Some(rad) => {
                    let item = make_radical_item(rad.as_str(), buf);
                    out.insert(0, item);
                    proof {
                        assert(out.deep_view() =~= seq![
                            fmt_radical_item(
                                self.yi_engine.spec_radical(buf@).unwrap(),
                                buf@,
                            ),
                        ] + base);
                    }
                },
                None => {},
            }
        }
        let deduped = dedup_candidate_items(out);
        let mut out = deduped;
        if out.len() > 9 {
            let ghost full = out.deep_view();
            out.truncate(9);
            proof {
                assert(out.deep_view() =~= full.take(9));
            }
        }
        proof {
            assert(out.deep_view() =~= spec_candidate_list(self.yi_engine, buf@));
        }
        out
    }

    /// What the window should do after the buffer changed: hide for an
    /// empty buffer; show the buffer with no candidates when it is not a
    /// valid prefix; otherwise show the candidate list.
    pub fn update_candidates(&self, input_buffer: &str) -> (r: WindowCommand)
        requires
            self.yi_engine.wf(),
            input_buffer@.len() < usize::MAX,
        ensures
            input_buffer@.len() == 0 ==> r is Hide,
            input_buffer@.len() > 0 ==> (r matches WindowCommand::Show { candidates, input }
                && input@ == input_buffer@ && candidates.deep_view() == (
            if spec_valid_input(self.yi_engine, input_buffer@) {
                spec_candidate_list(self.yi_engine, input_buffer@)
            } else {
                Seq::<Seq<char>>::empty()
            })),
    {
        if input_buffer.unicode_len() == 0 {
            return WindowCommand::Hide;
        }
        if !self.is_valid_input_sequence(input_buffer) {
            let empty: Vec<String> = Vec::new();
            proof {
                assert(empty.deep_view() =~= Seq::<Seq<char>>::empty());
            }
            return WindowCommand::Show {
                candidates: empty,
                input: String::from_str(input_buffer),
            };
        }
        let candidates = self.candidate_list(input_buffer);
        WindowCommand::Show { candidates, input: String::from_str(input_buffer) }
    }
}

/// How many items one reading contributes: as many of its strings as fit
/// under nine.
proof fn lemma_fill_one_reading_len(ys: Seq<Seq<char>>, seg: Seq<char>, cur: int)
    ensures
        fill_one_reading(ys, seg, cur).len() == if cur >= 9 {
            0
        } else if ys.len() <= 9 - cur {
            ys.len() as int
        } else {
            9 - cur
        },
    decreases ys.len(),
{
    if ys.len() == 0 || cur >= 9 {
    } else {
        lemma_fill_one_reading_len(ys.skip(1), seg, cur + 1);
    }
}

/// Collapses repeated items to their first occurrence.
#[verifier::loop_isolation(false)]
fn dedup_candidate_items(items: Vec<String>) -> (out: Vec<String>)
    ensures
        out.deep_view() == spec_dedup_items(items.deep_view(), Seq::empty()),
{
    let ghost iv = items.deep_view();
    let mut out: Vec<String> = Vec::new();
    let mut seen: Vec<String> = Vec::new();
    let mut i: usize = 0;
    proof {
        assert(iv.skip(0) =~= iv);
        assert(seen.deep_view() =~= Seq::<Seq<char>>::empty());
        assert(out.deep_view() + spec_dedup_items(iv.skip(0), seen.deep_view())
            =~= spec_dedup_items(iv, Seq::empty()));
    }
    while i < items.len()
        invariant
            0 <= i <= items@.len(),
            iv == items.deep_view(),
            out.deep_view() + spec_dedup_items(iv.skip(i as int), seen.deep_view())
                =~= spec_dedup_items(iv, Seq::empty()),
        decreases items@.len() - i,
    {
        let ghost d0 = out.deep_view();
        let ghost s0 = seen.deep_view();
        proof {
            assert(iv.skip(i as int)[0] == iv[i as int]);
            assert(iv.skip(i as int).skip(1) =~= iv.skip(i as int + 1));
            assert(items@[i as int]@ == iv[i as int]);
        }
        if !string_vec_contains(&seen, items[i].as_str()) {
            seen.push(items[i].clone());
            out.push(items[i].clone());
            proof {
                assert(seen.deep_view() =~= s0.push(iv[i as int]));
                assert(out.deep_view() =~= d0.push(iv[i as int]));
                assert(out.deep_view() + spec_dedup_items(iv.skip(i as int + 1), seen.deep_view())
                    =~= d0 + (seq![iv[i as int]] + spec_dedup_items(
                    iv.skip(i as int + 1),
                    s0.push(iv[i as int]),
                )));
            }
        }
        i += 1;
    }
    proof {
        assert(spec_dedup_items(iv.skip(iv.len() as int), seen.deep_view())
            =~= Seq::<Seq<char>>::empty());
        assert(out.deep_view() =~= spec_dedup_items(iv, Seq::empty()));
    }
    out
}

/// Some candidate item has the given Yi text, annotated with the buffer.
pub open spec fn offers_item(d: YiIME, buf: Seq<char>, yi: Seq<char>) -> bool {
    exists|t: int|
        0 <= t < spec_candidate_list(d, buf).len() && spec_candidate_list(d, buf)[t] == fmt_item(
            yi,
            buf,
        )
}

/// Every Yi character of an exact-syllable buffer is offered: when the
/// buffer keys at most three characters, each appears as the Yi text of
/// some candidate item.
pub proof fn lemma_exact_chars_offered(d: YiIME, buf: Seq<char>)
    requires
        d.spec_has_syllable(buf),
        d.spec_lookup(buf).len() <= 3,
    ensures
        forall|c: int|
            0 <= c < d.spec_lookup(buf).len() ==> offers_item(d, buf, #[trigger] d.spec_lookup(
                buf,
            )[c]),
{
    let cs = d.spec_lookup(buf);
    let list = spec_candidate_list(d, buf);
    let s1 = fill_exact(cs, buf);
    assert(s1.len() == cs.len());
    assert forall|c: int| 0 <= c < d.spec_lookup(buf).len() implies offers_item(
        d,
        buf,
        #[trigger] d.spec_lookup(buf)[c],
    ) by {
        assert(s1[c] == fmt_item(cs[c], buf));
        let s2 = if buf.len() <= 3 && spec_potential_consonant(d, buf) {
            fill_consonants(spec_sorted_consonant(d, buf), true, buf, s1.len() as int)
        } else {
            Seq::<Seq<char>>::empty()
        };
        let s3 = if s1.len() + s2.len() < 9 {
            fill_smart(spec_smart_convert(d, buf), s1.len() + s2.len() as int)
        } else {
            Seq::<Seq<char>>::empty()
        };
        let base = s1 + s2 + s3;
        assert(base[c] == s1[c]);
        let withr = if d.spec_radical(buf) is Some {
            seq![fmt_radical_item(d.spec_radical(buf).unwrap(), buf)] + base
        } else {
            base
        };
        let idx = if d.spec_radical(buf) is Some {
            c + 1
        } else {
            c
        };
        assert(withr[idx] == fmt_item(cs[c], buf));
        let deduped = spec_dedup_items(withr, Seq::empty());
        lemma_dedup_items_covers(withr, Seq::empty(), idx);
        let y = choose|y: int|
            0 <= y <= idx && y < deduped.len() && #[trigger] deduped[y] == withr[idx];
        assert(y < 9);
        if deduped.len() > 9 {
            assert(list[y] == deduped[y]);
        } else {
            assert(list[y] == deduped[y]);
        }
        assert(0 <= y < list.len() && spec_candidate_list(d, buf)[y] == fmt_item(cs[c], buf));
    }
}

} // verus!
