//! Candidate synthesis from segmenter results: the Cartesian product of
//! the per-segment character sets (capped to avoid explosion), the
//! reference-mark expansion of inputs ending in `w`, and the radical
//! side-candidates.

use vstd::prelude::*;
use vstd::string::*;
use crate::strutil::{str_eq, str_starts_with, is_prefix_of, clone_string_vec, string_from_chars};
use crate::dict::YiIME;
use crate::queries::radical_tag;
use crate::segmentation::{SegmentResult, SegResultV, join_key, join_segments, spec_segment_pinyin};

verus! {

/// The reference mark: "repeat the previous syllable".
pub open spec fn ref_mark() -> char {
    '\u{A015}'
}

/// The radical marker without its trailing space, as commit parsing and
/// duplicate checks see it.
pub open spec fn radical_marker() -> Seq<char> {
    "[radical]"@
}

/// One combination prefix extended by every character of a group.
pub open spec fn prefix_one(c: Seq<char>, group: Seq<Seq<char>>) -> Seq<Seq<char>> {
    Seq::new(group.len(), |b: int| c + group[b])
}

/// Every current combination extended by every character of a group, in
/// combination-major order.
pub open spec fn combos_step(cur: Seq<Seq<char>>, group: Seq<Seq<char>>) -> Seq<Seq<char>>
    decreases cur.len(),
{
    if cur.len() == 0 {
        Seq::empty()
    } else {
        prefix_one(cur[0], group) + combos_step(cur.skip(1), group)
    }
}

/// The Cartesian product of the per-segment character sets, folded left
/// to right and truncated to 50 combinations after each step.
pub open spec fn spec_convert_to_yi(groups: Seq<Seq<Seq<char>>>) -> Seq<Seq<char>>
    decreases groups.len(),
{
    if groups.len() == 0 {
        seq![Seq::<char>::empty()]
    } else {
        let prev = spec_convert_to_yi(groups.drop_last());
        let step = combos_step(prev, groups.last());
        if step.len() > 50 {
            step.take(50)
        } else {
            step
        }
    }
}

impl YiIME {
    /// The Yi strings a segment result can stand for: the product of its
    /// per-segment character sets, in order, at most 50.
    #[verifier::loop_isolation(false)]
    pub fn convert_to_yi(&self, segment_result: &SegmentResult) -> (out: Vec<String>)
        ensures
            out.deep_view() == spec_convert_to_yi(segment_result@.yi_chars),
    {
        let ghost groups = segment_result@.yi_chars;
        let mut cur: Vec<String> = Vec::new();
        cur.push(String::new());
        proof {
            assert(groups.take(0) =~= Seq::<Seq<Seq<char>>>::empty());
            assert(cur.deep_view() =~= spec_convert_to_yi(groups.take(0)));
        }
        let mut g: usize = 0;
        while g < segment_result.yi_chars.len()
            invariant
                0 <= g <= segment_result.yi_chars@.len(),
                cur.deep_view() == spec_convert_to_yi(groups.take(g as int)),
            decreases segment_result.yi_chars@.len() - g,
        {
            let ghost cur_v = cur.deep_view();
            let ghost group_v = groups[g as int];
            let group: &Vec<String> = &segment_result.yi_chars[g];
            proof {
                assert(segment_result.yi_chars@[g as int].deep_view() == groups[g as int]);
            }
            let mut next: Vec<String> = Vec::new();
            let mut a: usize = 0;
            proof {
                assert(cur_v.skip(0) =~= cur_v);
                assert(next.deep_view() + combos_step(cur_v.skip(0), group_v) =~= combos_step(
                    cur_v,
                    group_v,
                ));
            }
            while a < cur.len()
                invariant
                    0 <= a <= cur@.len(),
                    cur_v == cur.deep_view(),
                    group_v == group.deep_view(),
                    next.deep_view() + combos_step(cur_v.skip(a as int), group_v) =~= combos_step(
                        cur_v,
                        group_v,
                    ),
                decreases cur@.len() - a,
            {
                let ghost next0 = next.deep_view();
                let ghost f: spec_fn(int) -> Seq<char> = |b: int| cur_v[a as int] + group_v[b];
                let mut b: usize = 0;
                proof {
                    assert(next.deep_view() =~= next0 + Seq::new(0, f));
                }
                while b < group.len()
                    invariant
                        0 <= b <= group@.len(),
                        cur_v == cur.deep_view(),
                        group_v == group.deep_view(),
                        a < cur@.len(),
                        next.deep_view() =~= next0 + Seq::new(b as nat, f),
                    decreases group@.len() - b,
                {
                    let mut item: String = cur[a].clone();
                    item.append(group[b].as_str());
                    proof {
                        assert(cur@[a as int]@ == cur_v[a as int]);
                        assert(group@[b as int]@ == group_v[b as int]);
                        assert(item@ == f(b as int));
                    }
                    let ghost before = next.deep_view();
                    next.push(item);
                    proof {
                        assert(next.deep_view() =~= before.push(f(b as int)));
                        assert(Seq::new((b + 1) as nat, f) =~= Seq::new(b as nat, f).push(
                            f(b as int),
                        ));
                    }
                    b += 1;
                }
                proof {
                    assert(Seq::new(group_v.len(), f) =~= prefix_one(cur_v[a as int], group_v));
                    assert(cur_v.skip(a as int)[0] == cur_v[a as int]);
                    assert(cur_v.skip(a as int).skip(1) =~= cur_v.skip(a as int + 1));
                    assert(combos_step(cur_v.skip(a as int), group_v) == prefix_one(
                        cur_v.skip(a as int)[0],
                        group_v,
                    ) + combos_step(cur_v.skip(a as int).skip(1), group_v));
                    assert(next.deep_view() + combos_step(cur_v.skip(a as int + 1), group_v)
                        =~= combos_step(cur_v, group_v));
                }
                a += 1;
            }
            proof {
                assert(combos_step(cur_v.skip(cur_v.len() as int), group_v)
                    =~= Seq::<Seq<char>>::empty());
                assert(next.deep_view() =~= combos_step(cur_v, group_v));
            }
            if next.len() > 50 {
                next.truncate(50);
                proof {
                    assert(next.deep_view() =~= combos_step(cur_v, group_v).take(50));
                }
            }
            cur = next;
            proof {
                assert(groups.take(g as int + 1).drop_last() =~= groups.take(g as int));
                assert(groups.take(g as int + 1).last() == groups[g as int]);
            }
            g += 1;
        }
        proof {
            assert(groups.take(groups.len() as int) =~= groups);
        }
        cur
    }

    /// Whether a radical side-candidate belongs with this input: the input
    /// is itself a syllable, or the only reading on offer is a single
    /// syllable.
    pub fn should_add_radical(&self, input: &str, segment_results: &Vec<SegmentResult>) -> (r:
        bool)
        requires
            self.wf(),
        ensures
            r == (self.spec_has_syllable(input@) || (segment_results.deep_view().len() == 1
                && segment_results.deep_view()[0].segments.len() == 1)),
    {
        if self.contains_syllable(input) {
            return true;
        }
        if segment_results.len() == 1 {
            proof {
                assert(segment_results.deep_view()[0] == segment_results@[0]@);
            }
            if segment_results[0].segments.len() == 1 {
                return true;
            }
        }
        false
    }
}

/// One converted reading: its joined segments, its Yi strings (with the
/// radical side-candidate first when the reading is a lone syllable with
/// a radical), and its confidence.
pub open spec fn spec_smart_one(d: YiIME, r: SegResultV) -> (Seq<char>, Seq<Seq<char>>, u64) {
    let combos = spec_convert_to_yi(r.yi_chars);
    let combos2 = if r.segments.len() == 1 && d.spec_radical(r.segments[0]) is Some {
        seq![radical_tag() + d.spec_radical(r.segments[0]).unwrap()] + combos
    } else {
        combos
    };
    (join_key(r.segments), combos2, r.confidence as u64)
}

/// One converted reading of the reference-mark form: the segments
/// annotated with a trailing `-w`, and the reference mark appended to
/// every Yi string.
pub open spec fn spec_smart_w_one(d: YiIME, r: SegResultV) -> (Seq<char>, Seq<Seq<char>>, u64) {
    let combos = spec_convert_to_yi(r.yi_chars);
    (
        join_key(r.segments) + seq!['-', 'w'],
        Seq::new(combos.len(), |t: int| combos[t].push(ref_mark())),
        r.confidence as u64,
    )
}

/// Some triple offers an item carrying the radical marker.
pub open spec fn has_radical_item(ts: Seq<(Seq<char>, Seq<Seq<char>>, u64)>) -> bool {
    exists|t: int, u: int|
        0 <= t < ts.len() && 0 <= u < ts[t].1.len() && is_prefix_of(radical_marker(), ts[t].1[u])
}

/// What `smart_convert` returns: the reference-mark expansion for inputs
/// ending in `w`; otherwise the converted readings of the input, with a
/// radical-only triple prepended when the input keys a radical and no
/// reading already offers one.
pub open spec fn spec_smart_convert(d: YiIME, input: Seq<char>) -> Seq<
    (Seq<char>, Seq<Seq<char>>, u64),
> {
    if input.len() > 0 && input.last() == 'w' {
        let rs = spec_segment_pinyin(d, input.drop_last());
        Seq::new(rs.len(), |t: int| spec_smart_w_one(d, rs[t]))
    } else {
        let rs = spec_segment_pinyin(d, input);
        let base = Seq::new(rs.len(), |t: int| spec_smart_one(d, rs[t]));
        if d.spec_radical(input) is Some && !has_radical_item(base) {
            seq![
                (input, seq![radical_tag() + d.spec_radical(input).unwrap()], 900u64),
            ] + base
        } else {
            base
        }
    }
}

impl YiIME {
    /// Converts a pinyin stream into candidate readings: for input ending
    /// in `w`, the reference-mark expansion of the prefix; otherwise the
    /// segmenter's readings with their Yi strings, radical side-candidates
    /// included, as `spec_smart_convert` states.
    #[verifier::loop_isolation(false)]
    pub fn smart_convert(&self, input: &str) -> (out: Vec<(String, Vec<String>, u64)>)
        requires
            self.wf(),
            input@.len() < usize::MAX,
        ensures
            out.deep_view() == spec_smart_convert(*self, input@),
    {
        let n: usize = input.unicode_len();
        if n > 0 && input.get_char(n - 1) == 'w' {
            let base_input: &str = input.substring_char(0, n - 1);
            proof {
                assert(base_input@ =~= input@.drop_last());
            }
            let rs = self.segment_pinyin(base_input);
            let ghost rsv = rs.deep_view();
            let ghost f: spec_fn(int) -> (Seq<char>, Seq<Seq<char>>, u64) = |t: int|
                spec_smart_w_one(*self, rsv[t]);
            let mut out: Vec<(String, Vec<String>, u64)> = Vec::new();
            let mut t: usize = 0;
            proof {
                assert(out.deep_view() =~= Seq::new(0, f));
            }
            while t < rs.len()
                invariant
                    0 <= t <= rs@.len(),
                    rsv == rs.deep_view(),
                    out.deep_view() =~= Seq::new(t as nat, f),
                decreases rs@.len() - t,
            {
                proof {
                    assert(rs@[t as int]@ == rsv[t as int]);
                }
                let combos: Vec<String> = self.convert_to_yi(&rs[t]);
                let ghost cv = combos.deep_view();
                let ghost g: spec_fn(int) -> Seq<char> = |u: int| cv[u].push(ref_mark());
                let mut combos_w: Vec<String> = Vec::new();
                let mut u: usize = 0;
                proof {
                    assert(combos_w.deep_view() =~= Seq::new(0, g));
                }
                while u < combos.len()
                    invariant
                        0 <= u <= combos@.len(),
                        cv == combos.deep_view(),
                        combos_w.deep_view() =~= Seq::new(u as nat, g),
                    decreases combos@.len() - u,
                {
                    let mut item: String = combos[u].clone();
                    item.push('\u{A015}');
                    proof {
                        assert(combos@[u as int]@ == cv[u as int]);
                        assert(item@ == g(u as int));
                    }
                    let ghost before = combos_w.deep_view();
                    combos_w.push(item);
                    proof {
                        assert(combos_w.deep_view() =~= before.push(g(u as int)));
                        assert(Seq::new((u + 1) as nat, g) =~= Seq::new(u as nat, g).push(
                            g(u as int),
                        ));
                    }
                    u += 1;
                }
                proof {
                    assert(combos_w.deep_view() =~= Seq::new(
                        cv.len(),
                        |x: int| cv[x].push(ref_mark()),
                    ));
                }
                let mut seg_str: String = join_segments(&rs[t].segments);
                seg_str.push('-');
                seg_str.push('w');
                proof {
                    assert(seg_str@ =~= join_key(rsv[t as int].segments) + seq!['-', 'w']);
                }
                let conf: u64 = rs[t].confidence;
                let ghost before_out = out.deep_view();
                out_push_triple(&mut out, seg_str, combos_w, conf);
                proof {
                    assert(out@.last().0@ == f(t as int).0);
                    assert(out@.last().1.deep_view() =~= f(t as int).1);
                    assert(out@.last().2 == f(t as int).2);
                    assert(out.deep_view() =~= before_out.push(f(t as int)));
                    assert(Seq::new((t + 1) as nat, f) =~= Seq::new(t as nat, f).push(f(t as int)));
                }
                t += 1;
            }
            proof {
                assert(out.deep_view() =~= spec_smart_convert(*self, input@));
            }
            out
        } else {
            let rs = self.segment_pinyin(input);
            let ghost rsv = rs.deep_view();
            let ghost f: spec_fn(int) -> (Seq<char>, Seq<Seq<char>>, u64) = |t: int|
                spec_smart_one(*self, rsv[t]);
            let mut base: Vec<(String, Vec<String>, u64)> = Vec::new();
            let mut t: usize = 0;
            proof {
                assert(base.deep_view() =~= Seq::new(0, f));
            }
            while t < rs.len()
                invariant
                    0 <= t <= rs@.len(),
                    rsv == rs.deep_view(),
                    base.deep_view() =~= Seq::new(t as nat, f),
                decreases rs@.len() - t,
            {
                proof {
                    assert(rs@[t as int]@ == rsv[t as int]);
                }
                let mut combos: Vec<String> = self.convert_to_yi(&rs[t]);
                let ghost cv = combos.deep_view();
                if rs[t].segments.len() == 1 {
                    proof {
                        assert(rs@[t as int].segments@[0]@ == rsv[t as int].segments[0]);
                    }
                    match self.get_radical_candidate(rs[t].segments[0].as_str()) {
                        Some(rad) => {
                            let mut tagged: String = String::from_str("[radical] ");
                            tagged.append(rad.as_str());
                            combos.insert(0, tagged);
                            proof {
                                assert(combos.deep_view() =~= seq![
                                    radical_tag() + self.spec_radical(
                                        rsv[t as int].segments[0],
                                    ).unwrap(),
                                ] + cv);
                            }
                        },
                        None => {},
                    }
                }
                let seg_str: String = join_segments(&rs[t].segments);
                let conf: u64 = rs[t].confidence;
                let ghost before_base = base.deep_view();
                out_push_triple(&mut base, seg_str, combos, conf);
                proof {
                    assert(base@.last().0@ == f(t as int).0);
                    assert(base@.last().1.deep_view() =~= f(t as int).1);
                    assert(base@.last().2 == f(t as int).2);
                    assert(base.deep_view() =~= before_base.push(f(t as int)));
                    assert(Seq::new((t + 1) as nat, f) =~= Seq::new(t as nat, f).push(f(t as int)));
                }
                t += 1;
            }
            let ghost base_v = base.deep_view();
            proof {
                assert(base_v =~= Seq::new(rsv.len(), f));
            }
            match self.get_radical_candidate(input) {
                Some(rad) => {
                    if !triples_have_radical(&base) {
                        let mut tagged: String = String::from_str("[radical] ");
                        tagged.append(rad.as_str());
                        let mut items: Vec<String> = Vec::new();
                        items.push(tagged);
                        let key: String = String::from_str(input);
                        proof {
                            assert(items.deep_view() =~= seq![
                                radical_tag() + self.spec_radical(input@).unwrap(),
                            ]);
                        }
                        base.insert(0, (key, items, 900));
                        proof {
                            assert(base@[0].0@ == input@);
                            assert(base.deep_view() =~= seq![
                                (
                                    input@,
                                    seq![radical_tag() + self.spec_radical(input@).unwrap()],
                                    900u64,
                                ),
                            ] + base_v);
                        }
                    }
                },
                None => {},
            }
            base
        }
    }
}

/// Pushes one converted triple; separated out so the borrows of its parts
/// end before the push.
fn out_push_triple(
    out: &mut Vec<(String, Vec<String>, u64)>,
    seg: String,
    combos: Vec<String>,
    conf: u64,
)
    ensures
        final(out)@ == old(out)@.push((seg, combos, conf)),
{
    out.push((seg, combos, conf));
}

/// Whether any triple offers an item carrying the radical marker.
fn triples_have_radical(ts: &Vec<(String, Vec<String>, u64)>) -> (r: bool)
    ensures
        r == has_radical_item(ts.deep_view()),
{
    let mut t: usize = 0;
    while t < ts.len()
        invariant
            0 <= t <= ts@.len(),
            forall|a: int, b: int|
                0 <= a < t && 0 <= b < ts.deep_view()[a].1.len() ==> !is_prefix_of(
                    radical_marker(),
                    #[trigger] ts.deep_view()[a].1[b],
                ),
        decreases ts@.len() - t,
    {
        let items: &Vec<String> = &ts[t].1;
        proof {
            assert(ts.deep_view()[t as int].1 == ts@[t as int].1.deep_view());
        }
        let mut u: usize = 0;
        while u < items.len()
            invariant
                0 <= u <= items@.len(),
                0 <= t < ts@.len(),
                items.deep_view() == ts.deep_view()[t as int].1,
                forall|b: int|
                    0 <= b < u ==> !is_prefix_of(
                        radical_marker(),
                        #[trigger] ts.deep_view()[t as int].1[b],
                    ),
                forall|a: int, b: int|
                    0 <= a < t && 0 <= b < ts.deep_view()[a].1.len() ==> !is_prefix_of(
                        radical_marker(),
                        #[trigger] ts.deep_view()[a].1[b],
                    ),
            decreases items@.len() - u,
        {
            if str_starts_with(items[u].as_str(), "[radical]") {
                proof {
                    assert(items@[u as int]@ == ts.deep_view()[t as int].1[u as int]);
                    assert(has_radical_item(ts.deep_view()));
                }
                return true;
            }
            proof {
                assert(items@[u as int]@ == ts.deep_view()[t as int].1[u as int]);
            }
            u += 1;
        }
        t += 1;
    }
    false
}

/// Reference-mark expansion: for input ending in `w` whose prefix the
/// segmenter reads, every Yi string on offer ends in the reference mark,
/// and every annotation carries the trailing `-w`.
pub proof fn lemma_w_suffix_candidates(d: YiIME, input: Seq<char>)
    requires
        input.len() > 0,
        input.last() == 'w',
    ensures
        forall|t: int, u: int|
            0 <= t < spec_smart_convert(d, input).len() && 0 <= u < spec_smart_convert(
                d,
                input,
            )[t].1.len() ==> (#[trigger] spec_smart_convert(d, input)[t].1[u]).len() > 0
                && spec_smart_convert(d, input)[t].1[u].last() == ref_mark(),
        forall|t: int|
            0 <= t < spec_smart_convert(d, input).len() ==> (#[trigger] spec_smart_convert(
                d,
                input,
            )[t].0).len() >= 2 && spec_smart_convert(d, input)[t].0.last() == 'w',
{
    let rs = spec_segment_pinyin(d, input.drop_last());
    let out = spec_smart_convert(d, input);
    assert forall|t: int, u: int|
        0 <= t < out.len() && 0 <= u < out[t].1.len() implies (#[trigger] out[t].1[u]).len() > 0
        && out[t].1[u].last() == ref_mark() by {
        assert(out[t] == spec_smart_w_one(d, rs[t]));
        let combos = spec_convert_to_yi(rs[t].yi_chars);
        assert(out[t].1[u] == combos[u].push(ref_mark()));
    }
    assert forall|t: int| 0 <= t < out.len() implies (#[trigger] out[t].0).len() >= 2 && out[t].0.last()
        == 'w' by {
        assert(out[t] == spec_smart_w_one(d, rs[t]));
        assert(out[t].0 == join_key(rs[t].segments) + seq!['-', 'w']);
        assert(out[t].0.last() == 'w');
    }
}

} // verus!
