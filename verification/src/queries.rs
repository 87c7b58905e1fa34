//! Read-only dictionary queries beyond the plain lookups: the combined
//! character-plus-radical query and the prefix search that backs consonant
//! completion, with its stable by-length ordering.

use vstd::prelude::*;
use vstd::string::*;
use crate::strutil::{str_starts_with, is_prefix_of, clone_string_vec};
use crate::dict::YiIME;

verus! {

/// The marker prefixed to a radical item in a candidate list.
pub open spec fn radical_tag() -> Seq<char> {
    "[radical] "@
}

/// The entries of `m` whose key starts with `pre`, in map order.
pub open spec fn spec_prefix_entries(
    m: Seq<(Seq<char>, Seq<Seq<char>>)>,
    pre: Seq<char>,
) -> Seq<(Seq<char>, Seq<Seq<char>>)>
    decreases m.len(),
{
    if m.len() == 0 {
        Seq::empty()
    } else {
        let rest = spec_prefix_entries(m.skip(1), pre);
        if is_prefix_of(pre, m[0].0) {
            seq![m[0]] + rest
        } else {
            rest
        }
    }
}

/// Insertion into a by-key-length sorted sequence: `x` goes after every
/// entry whose key is not longer, so entries of equal length keep their
/// order.
pub open spec fn spec_insert_by_len(
    s: Seq<(Seq<char>, Seq<Seq<char>>)>,
    x: (Seq<char>, Seq<Seq<char>>),
) -> Seq<(Seq<char>, Seq<Seq<char>>)>
    decreases s.len(),
{
    if s.len() == 0 {
        seq![x]
    } else if x.0.len() < s.last().0.len() {
        spec_insert_by_len(s.drop_last(), x).push(s.last())
    } else {
        s.push(x)
    }
}

/// Stable sort by ascending key length.
pub open spec fn spec_sort_by_len(
    s: Seq<(Seq<char>, Seq<Seq<char>>)>,
) -> Seq<(Seq<char>, Seq<Seq<char>>)>
    decreases s.len(),
{
    if s.len() == 0 {
        Seq::empty()
    } else {
        spec_insert_by_len(spec_sort_by_len(s.drop_last()), s.last())
    }
}

/// Where the insertion lands: if everything from `pos` on is strictly
/// longer than `x` and the entry before `pos` is not, the insertion splits
/// the sequence at `pos`.
proof fn lemma_insert_by_len_at(
    s: Seq<(Seq<char>, Seq<Seq<char>>)>,
    x: (Seq<char>, Seq<Seq<char>>),
    pos: int,
)
    requires
        0 <= pos <= s.len(),
        forall|k: int| pos <= k < s.len() ==> x.0.len() < #[trigger] s[k].0.len(),
        pos > 0 ==> !(x.0.len() < s[pos - 1].0.len()),
    ensures
        spec_insert_by_len(s, x) =~= s.take(pos) + seq![x] + s.skip(pos),
    decreases s.len(),
{
    if s.len() == 0 {
    } else if pos == s.len() {
        assert(spec_insert_by_len(s, x) == s.push(x));
    } else {
        assert(x.0.len() < s[s.len() - 1].0.len());
        assert forall|k: int| pos <= k < s.drop_last().len() implies x.0.len()
            < #[trigger] s.drop_last()[k].0.len() by {
            assert(s.drop_last()[k] == s[k]);
        }
        if pos > 0 {
            assert(s.drop_last()[pos - 1] == s[pos - 1]);
        }
        lemma_insert_by_len_at(s.drop_last(), x, pos);
    }
}

impl YiIME {
    /// Every Yi character the pinyin keys, followed by its radical (tagged
    /// with the radical marker) when the radical table has the pinyin too.
    pub open spec fn spec_query_by_pinyin(self, p: Seq<char>) -> Seq<Seq<char>> {
        match self.spec_radical(p) {
            Some(rad) => self.spec_lookup(p).push(radical_tag() + rad),
            None => self.spec_lookup(p),
        }
    }

    /// The Yi characters keyed by a pinyin, with the tagged radical
    /// appended when one exists.
    pub fn query_by_pinyin(&self, pinyin: &str) -> (r: Vec<String>)
        ensures
            r.deep_view() == self.spec_query_by_pinyin(pinyin@),
    {
        let mut r: Vec<String> = self.lookup(pinyin);
        let ghost base = r.deep_view();
        match self.get_radical_candidate(pinyin) {
            Some(rad) => {
                let mut tagged: String = String::from_str("[radical] ");
                tagged.append(rad.as_str());
                r.push(tagged);
                proof {
                    assert(r.deep_view() =~= base.push(radical_tag() + rad@));
                }
                r
            },
            None => r,
        }
    }

    /// The dictionary entries whose pinyin starts with `prefix`, stably
    /// sorted by ascending pinyin length.
    pub fn fuzzy_query(&self, prefix: &str) -> (r: Vec<(String, Vec<String>)>)
        ensures
            r.deep_view() == spec_sort_by_len(spec_prefix_entries(self.syl_map(), prefix@)),
    {
        let ghost m = self.syl_map();
        let n: usize = self.pinyin_index.len();
        let mut matches: Vec<(String, Vec<String>)> = Vec::new();
        let mut i: usize = 0;
        proof {
            assert(m.skip(0) =~= m);
            assert(matches.deep_view() + spec_prefix_entries(m.skip(0), prefix@)
                =~= spec_prefix_entries(m, prefix@));
        }
        while i < n
            invariant
                i <= n,
                n == self.pinyin_index@.len(),
                m == self.syl_map(),
                matches.deep_view() + spec_prefix_entries(m.skip(i as int), prefix@)
                    =~= spec_prefix_entries(m, prefix@),
            decreases n - i,
        {
            let ghost pre_matches = matches.deep_view();
            proof {
                assert(m[i as int] == (
                    self.pinyin_index@[i as int].0@,
                    self.pinyin_index@[i as int].1.deep_view(),
                ));
                assert(m.skip(i as int)[0] == m[i as int]);
                assert(m.skip(i as int).skip(1) =~= m.skip(i as int + 1));
            }
            if str_starts_with(self.pinyin_index[i].0.as_str(), prefix) {
                let entry: (String, Vec<String>) = (
                    self.pinyin_index[i].0.clone(),
                    clone_string_vec(&self.pinyin_index[i].1),
                );
                matches.push(entry);
                proof {
                    assert(matches.deep_view() =~= pre_matches.push(m[i as int]));
                    assert(matches.deep_view() + spec_prefix_entries(m.skip(i as int + 1), prefix@)
                        =~= pre_matches + spec_prefix_entries(m.skip(i as int), prefix@));
                }
            }
            i += 1;
        }
        proof {
            assert(spec_prefix_entries(m.skip(n as int), prefix@) =~= Seq::empty());
            assert(matches.deep_view() =~= spec_prefix_entries(m, prefix@));
        }
        let ghost filtered = matches.deep_view();
        let mut out: Vec<(String, Vec<String>)> = Vec::new();
        let mut k: usize = 0;
        proof {
            assert(filtered.take(0) =~= Seq::empty());
            assert(out.deep_view() =~= spec_sort_by_len(filtered.take(0)));
        }
        while k < matches.len()
            invariant
                k <= matches@.len(),
                filtered == matches.deep_view(),
                out.deep_view() == spec_sort_by_len(filtered.take(k as int)),
            decreases matches@.len() - k,
        {
            let ghost pre_out = out.deep_view();
            let key_len: usize = matches[k].0.as_str().unicode_len();
            let mut pos: usize = out.len();
            while pos > 0 && key_len < out[pos - 1].0.as_str().unicode_len()
                invariant
                    0 <= pos <= out@.len(),
                    pre_out == out.deep_view(),
                    key_len == filtered[k as int].0.len(),
                    k < filtered.len(),
                    filtered == matches.deep_view(),
                    forall|t: int|
                        pos <= t < out@.len() ==> filtered[k as int].0.len()
                            < #[trigger] out.deep_view()[t].0.len(),
                decreases pos,
            {
                proof {
                    assert(out.deep_view()[pos - 1].0 == out@[pos - 1].0@);
                }
                pos -= 1;
            }
            proof {
                if pos > 0 {
                    assert(out.deep_view()[pos - 1].0 == out@[pos - 1].0@);
                }
            }
            let entry: (String, Vec<String>) = (
                matches[k].0.clone(),
                clone_string_vec(&matches[k].1),
            );
            out.insert(pos, entry);
            proof {
                lemma_insert_by_len_at(pre_out, filtered[k as int], pos as int);
                assert(out.deep_view() =~= pre_out.take(pos as int) + seq![filtered[k as int]]
                    + pre_out.skip(pos as int));
                assert(filtered.take(k as int + 1).drop_last() =~= filtered.take(k as int));
                assert(filtered.take(k as int + 1).last() == filtered[k as int]);
                assert(out.deep_view() =~= spec_sort_by_len(filtered.take(k as int + 1)));
            }
            k += 1;
        }
        proof {
            assert(filtered.take(filtered.len() as int) =~= filtered);
        }
        out
    }
}

/// The candidate variant forms of a syllable, before dictionary
/// filtering: the four tone-marked forms (unless the syllable already
/// carries a coda or tone letter), and the `u`/`i` rhyme expansions.
pub open spec fn spec_variant_forms(p: Seq<char>) -> Seq<Seq<char>> {
    let base_forms: Seq<Seq<char>> = if p.len() > 0 && (p.last() == 'p' || p.last() == 't'
        || p.last() == 'x' || p.last() == 'r') {
        Seq::empty()
    } else {
        seq![p + "t"@, p + "x"@, p + "p"@, p + "r"@]
    };
    let extra: Seq<Seq<char>> = if p == "u"@ {
        seq!["uo"@, "uot"@, "uox"@, "uop"@]
    } else if p == "i"@ {
        seq!["ie"@, "iet"@, "iex"@, "iep"@]
    } else if p.len() > 1 && p.last() == 'u' {
        let b = p.drop_last();
        seq![b + "ut"@, b + "ux"@, b + "up"@, b + "uo"@, b + "uot"@, b + "uox"@, b + "uop"@]
    } else if p.len() > 1 && p.last() == 'i' {
        let b = p.drop_last();
        seq![b + "it"@, b + "ix"@, b + "ip"@, b + "ie"@, b + "iet"@, b + "iex"@, b + "iep"@]
    } else {
        Seq::empty()
    };
    base_forms + extra
}

/// The variant forms that the dictionary actually knows, as syllables or
/// radical keys.
pub open spec fn spec_variant_filter(d: YiIME, vs: Seq<Seq<char>>) -> Seq<Seq<char>>
    decreases vs.len(),
{
    if vs.len() == 0 {
        Seq::empty()
    } else {
        let here: Seq<Seq<char>> = if d.spec_has_syllable(vs[0]) || d.spec_radical(vs[0]) is Some {
            seq![vs[0]]
        } else {
            Seq::empty()
        };
        here + spec_variant_filter(d, vs.skip(1))
    }
}

/// Appends the concatenation of two strings.
fn push_cat(v: &mut Vec<String>, a: &str, b: &str)
    ensures
        final(v).deep_view() == old(v).deep_view().push(a@ + b@),
{
    let ghost before = v.deep_view();
    let mut s: String = String::from_str(a);
    s.append(b);
    v.push(s);
    proof {
        assert(v.deep_view() =~= before.push(a@ + b@));
    }
}

impl YiIME {
    /// The dictionary-known variants of a syllable: its tone-marked forms
    /// and rhyme expansions, filtered to those the syllable or radical
    /// tables hold, as the specification functions state.
    #[verifier::loop_isolation(false)]
    pub fn get_syllable_variants(&self, pinyin: &str) -> (out: Vec<String>)
        requires
            self.wf(),
        ensures
            out.deep_view() == spec_variant_filter(*self, spec_variant_forms(pinyin@)),
    {
        let n: usize = pinyin.unicode_len();
        let tail: char = if n > 0 {
            pinyin.get_char(n - 1)
        } else {
            ' '
        };
        let mut forms: Vec<String> = Vec::new();
        if !(n > 0 && (tail == 'p' || tail == 't' || tail == 'x' || tail == 'r')) {
            push_cat(&mut forms, pinyin, "t");
            push_cat(&mut forms, pinyin, "x");
            push_cat(&mut forms, pinyin, "p");
            push_cat(&mut forms, pinyin, "r");
        }
        if crate::strutil::str_eq(pinyin, "u") {
            push_cat(&mut forms, "uo", "");
            push_cat(&mut forms, "uot", "");
            push_cat(&mut forms, "uox", "");
            push_cat(&mut forms, "uop", "");
            proof {
                reveal_strlit("");
                assert("uo"@ + ""@ =~= "uo"@);
                assert("uot"@ + ""@ =~= "uot"@);
                assert("uox"@ + ""@ =~= "uox"@);
                assert("uop"@ + ""@ =~= "uop"@);
            }
        } else if crate::strutil::str_eq(pinyin, "i") {
            push_cat(&mut forms, "ie", "");
            push_cat(&mut forms, "iet", "");
            push_cat(&mut forms, "iex", "");
            push_cat(&mut forms, "iep", "");
            proof {
                reveal_strlit("");
                assert("ie"@ + ""@ =~= "ie"@);
                assert("iet"@ + ""@ =~= "iet"@);
                assert("iex"@ + ""@ =~= "iex"@);
                assert("iep"@ + ""@ =~= "iep"@);
            }
        } else if n > 1 && tail == 'u' {
            let base: &str = pinyin.substring_char(0, n - 1);
            proof {
                assert(base@ =~= pinyin@.drop_last());
            }
            push_cat(&mut forms, base, "ut");
            push_cat(&mut forms, base, "ux");
            push_cat(&mut forms, base, "up");
            push_cat(&mut forms, base, "uo");
            push_cat(&mut forms, base, "uot");
            push_cat(&mut forms, base, "uox");
            push_cat(&mut forms, base, "uop");
        } else if n > 1 && tail == 'i' {
            let base: &str = pinyin.substring_char(0, n - 1);
            proof {
                assert(base@ =~= pinyin@.drop_last());
            }
            push_cat(&mut forms, base, "it");
            push_cat(&mut forms, base, "ix");
            push_cat(&mut forms, base, "ip");
            push_cat(&mut forms, base, "ie");
            push_cat(&mut forms, base, "iet");
            push_cat(&mut forms, base, "iex");
            push_cat(&mut forms, base, "iep");
        }
        proof {
            assert(forms.deep_view() =~= spec_variant_forms(pinyin@));
        }
        let ghost fv = forms.deep_view();
        let mut out: Vec<String> = Vec::new();
        let mut i: usize = 0;
        proof {
            assert(fv.skip(0) =~= fv);
            assert(out.deep_view() + spec_variant_filter(*self, fv.skip(0)) =~= spec_variant_filter(
                *self,
                fv,
            ));
        }
        while i < forms.len()
            invariant
                0 <= i <= forms@.len(),
                fv == forms.deep_view(),
                out.deep_view() + spec_variant_filter(*self, fv.skip(i as int))
                    =~= spec_variant_filter(*self, fv),
            decreases forms@.len() - i,
        {
            let ghost out0 = out.deep_view();
            proof {
                assert(fv.skip(i as int)[0] == fv[i as int]);
                assert(fv.skip(i as int).skip(1) =~= fv.skip(i as int + 1));
                assert(forms@[i as int]@ == fv[i as int]);
            }
            let keep: bool = if self.contains_syllable(forms[i].as_str()) {
                true
            } else {
                match self.get_radical_candidate(forms[i].as_str()) {
                    Some(r) => true,
                    None => false,
                }
            };
            if keep {
                out.push(forms[i].clone());
                proof {
                    assert(out.deep_view() =~= out0.push(fv[i as int]));
                    assert(out.deep_view() + spec_variant_filter(*self, fv.skip(i as int + 1))
                        =~= out0 + (seq![fv[i as int]] + spec_variant_filter(
                        *self,
                        fv.skip(i as int + 1),
                    )));
                }
            }
            i += 1;
        }
        proof {
            assert(spec_variant_filter(*self, fv.skip(fv.len() as int)) =~= Seq::<Seq<char>>::empty());
            assert(out.deep_view() =~= spec_variant_filter(*self, fv));
        }
        out
    }
}

} // verus!
