//! Modulation bookkeeping that does not depend on signal values.
use vstd::prelude::*;

use crate::graph::ParamPath;
use crate::params::texts;
use crate::text::{append_decimal, chars_eq, chars_of, chars_of_string, decimal, string_of};

verus! {

/// The waveform of a low-frequency oscillator.
#[derive(Clone, Copy, Debug, PartialEq, Eq, Structural)]
pub enum LfoShape {
    Sine,
    Triangle,
    Saw,
    Square,
}

impl LfoShape {
    /// Every shape, in menu order.
    pub fn all() -> (r: [LfoShape; 4])
        ensures
            r@ == seq![LfoShape::Sine, LfoShape::Triangle, LfoShape::Saw, LfoShape::Square],
    {
        let r = [LfoShape::Sine, LfoShape::Triangle, LfoShape::Saw, LfoShape::Square];
        assert(r@ =~= seq![LfoShape::Sine, LfoShape::Triangle, LfoShape::Saw, LfoShape::Square]);
        r
    }

    /// Short name shown in menus.
    pub fn label(self) -> (s: &'static str)
        ensures
            s@ == (match self {
                LfoShape::Sine => "sine"@,
                LfoShape::Triangle => "tri"@,
                LfoShape::Saw => "saw"@,
                LfoShape::Square => "square"@,
            }),
    {
        match self {
            LfoShape::Sine => "sine",
            LfoShape::Triangle => "tri",
            LfoShape::Saw => "saw",
            LfoShape::Square => "square",
        }
    }
}

/// `prefix` followed by the decimal rendering of `n`.
pub open spec fn numbered(prefix: Seq<char>, n: nat) -> Seq<char> {
    prefix + decimal(n)
}

/// `r` is the first of `prefix1`, `prefix2`, … that is not one of `ids`.
pub open spec fn is_next_free(r: Seq<char>, prefix: Seq<char>, ids: Seq<Seq<char>>) -> bool {
    exists|n: nat|
        #![trigger numbered(prefix, n)]
        {
            &&& n >= 1
            &&& r == numbered(prefix, n)
            &&& !ids.contains(r)
            &&& forall|m: nat| 1 <= m < n ==> ids.contains(#[trigger] numbered(prefix, m))
        }
}

/// The first free id of the form `prefix1`, `prefix2`, … among `ids`.
/// A counter of the width the id counter has (`i32`) reaches a free id.
pub fn next_free_id(prefix: &str, ids: &Vec<String>) -> (r: String)
    requires
        exists|m: nat| 1 <= m <= 0x7fff_ffff && !texts(ids@).contains(#[trigger] numbered(prefix@, m)),
    ensures
        is_next_free(r@, prefix@, texts(ids@)),
{
    let p = chars_of(prefix);
    let ghost tv = texts(ids@);
    let mut n: usize = 1;
    loop
        invariant
            p@ == prefix@,
            tv == texts(ids@),
            1 <= n <= 0x7fff_ffff,
            exists|m: nat| 1 <= m <= 0x7fff_ffff && !tv.contains(#[trigger] numbered(prefix@, m)),
            forall|m: nat| 1 <= m < n ==> tv.contains(#[trigger] numbered(prefix@, m)),
        decreases 0x7fff_ffff - n,
    {
        let mut cand = chars_of(prefix);
        append_decimal(&mut cand, n as u64);
        assert(cand@ == numbered(prefix@, n as nat));
        let mut taken = false;
        let mut j: usize = 0;
        while j < ids.len()
            invariant
                j <= ids.len(),
                tv == texts(ids@),
                taken == exists|k: int| 0 <= k < j && tv[k] == cand@,
            decreases ids.len() - j,
        {
            let idc = chars_of_string(&ids[j]);
            assert(tv[j as int] == ids@[j as int]@);
            if chars_eq(&idc, &cand) {
                taken = true;
            }
            j = j + 1;
        }
        if !taken {
            proof {
                if tv.contains(cand@) {
                    let k = choose|k: int| 0 <= k < tv.len() && tv[k] == cand@;
                    assert(tv[k] == cand@);
                }
                assert(numbered(prefix@, n as nat) == cand@);
            }
            return string_of(&cand);
        }
        proof {
            let k = choose|k: int| 0 <= k < ids.len() && tv[k] == cand@;
            assert(tv.contains(numbered(prefix@, n as nat)));
            let w = choose|m: nat| 1 <= m <= 0x7fff_ffff && !tv.contains(#[trigger] numbered(prefix@, m));
            assert(w > n);
        }
        n = n + 1;
    }
}

/// One modulation assignment: the parameter it moves, the source that moves
/// it, and how far (`D`).
#[derive(Clone, Debug)]
pub struct Assignment<D> {
    pub target: ParamPath,
    pub source: String,
    pub depth: D,
}

/// Both paths name the same parameter.
pub open spec fn same_path(a: ParamPath, b: ParamPath) -> bool {
    a.node@ == b.node@ && a.param@ == b.param@
}

/// The assignments whose target is not `target`, in order.
pub open spec fn without_target<D>(s: Seq<Assignment<D>>, target: ParamPath) -> Seq<Assignment<D>>
    decreases s.len(),
{
    if s.len() == 0 {
        s
    } else if same_path(s.last().target, target) {
        without_target(s.drop_last(), target)
    } else {
        without_target(s.drop_last(), target).push(s.last())
    }
}

/// The assignments whose source is not `source`, in order.
pub open spec fn without_source<D>(s: Seq<Assignment<D>>, source: Seq<char>) -> Seq<Assignment<D>>
    decreases s.len(),
{
    if s.len() == 0 {
        s
    } else if s.last().source@ == source {
        without_source(s.drop_last(), source)
    } else {
        without_source(s.drop_last(), source).push(s.last())
    }
}

/// No two assignments move the same parameter.
pub open spec fn one_per_target<D>(s: Seq<Assignment<D>>) -> bool {
    forall|i: int, j: int| 0 <= i < j < s.len() ==> !same_path(#[trigger] s[i].target, #[trigger] s[j].target)
}

proof fn lemma_without_target<D>(s: Seq<Assignment<D>>, target: ParamPath)
    ensures
        forall|i: int| 0 <= i < without_target(s, target).len() ==> !same_path(
            (#[trigger] without_target(s, target)[i]).target,
            target,
        ) && s.contains(without_target(s, target)[i]),
        one_per_target(s) ==> one_per_target(without_target(s, target)),
        forall|i: int| 0 <= i < s.len() && !same_path(s[i].target, target) ==> without_target(s, target).contains(
            #[trigger] s[i],
        ),
    decreases s.len(),
{
    if s.len() > 0 {
        let front = s.drop_last();
        lemma_without_target(front, target);
        let w = without_target(front, target);
        assert forall|i: int| 0 <= i < w.len() implies s.contains(#[trigger] w[i]) by {
            let p = choose|p: int| 0 <= p < front.len() && front[p] == w[i];
            assert(s[p] == w[i]);
        }
        assert forall|i: int| 0 <= i < s.len() && !same_path(s[i].target, target) implies without_target(
            s,
            target,
        ).contains(#[trigger] s[i]) by {
            if i < s.len() - 1 {
                assert(front[i] == s[i]);
                let p = choose|p: int| 0 <= p < w.len() && w[p] == front[i];
                if !same_path(s.last().target, target) {
                    assert(w.push(s.last())[p] == s[i]);
                }
            } else {
                assert(w.push(s.last())[w.len() as int] == s[i]);
            }
        }
        if one_per_target(s) {
            assert(one_per_target(front)) by {
                assert forall|i: int, j: int| 0 <= i < j < front.len() implies !same_path(
                    #[trigger] front[i].target,
                    #[trigger] front[j].target,
                ) by {
                    assert(front[i] == s[i] && front[j] == s[j]);
                }
            }
            if !same_path(s.last().target, target) {
                let r = w.push(s.last());
                assert forall|i: int, j: int| 0 <= i < j < r.len() implies !same_path(
                    #[trigger] r[i].target,
                    #[trigger] r[j].target,
                ) by {
                    if j == r.len() - 1 {
                        let p = choose|p: int| 0 <= p < front.len() && front[p] == w[i];
                        assert(s[p] == w[i]);
                        assert(!same_path(s[p].target, s[s.len() - 1].target));
                    } else {
                        assert(r[i] == w[i] && r[j] == w[j]);
                    }
                }
            }
        }
    }
}

proof fn lemma_without_source<D>(s: Seq<Assignment<D>>, source: Seq<char>)
    ensures
        forall|i: int| 0 <= i < without_source(s, source).len() ==> (#[trigger] without_source(s, source)[i]).source@
            != source,
    decreases s.len(),
{
    if s.len() > 0 {
        lemma_without_source(s.drop_last(), source);
        let w = without_source(s.drop_last(), source);
        if s.last().source@ != source {
            assert forall|i: int| 0 <= i < w.len() + 1 implies (#[trigger] w.push(s.last())[i]).source@ != source by {
                if i < w.len() {
                    assert(w.push(s.last())[i] == w[i]);
                }
            }
        }
    }
}

/// `new` is `old` without the assignments of `target`, in order, followed,
/// when `added`, by one new assignment of `target`.
pub open spec fn assigned_from<D>(old: Seq<Assignment<D>>, target: ParamPath, new: Seq<Assignment<D>>, added: bool) -> bool {
    let kept = without_target(old, target);
    &&& new.subrange(0, kept.len() as int) == kept
    &&& new.len() == kept.len() + if added {
        1int
    } else {
        0
    }
    &&& added ==> new.last().target == target
}

/// Assigning keeps one assignment per parameter: from assignments with one
/// per target, `assign` makes assignments with one per target, and the only
/// one of `target` (if any) is the one it added.
pub proof fn law_one_assignment_per_target<D>(
    s: Seq<Assignment<D>>,
    target: ParamPath,
    r: Seq<Assignment<D>>,
    added: bool,
)
    requires
        one_per_target(s),
        assigned_from(s, target, r, added),
    ensures
        one_per_target(r),
        forall|i: int| 0 <= i < r.len() && same_path(#[trigger] r[i].target, target) ==> added && i == r.len() - 1,
{
    let kept = without_target(s, target);
    lemma_without_target(s, target);
    assert forall|i: int| 0 <= i < kept.len() implies #[trigger] r[i] == kept[i] by {
        assert(r.subrange(0, kept.len() as int)[i] == r[i]);
    }
    assert forall|i: int, j: int| 0 <= i < j < r.len() implies !same_path(#[trigger] r[i].target, #[trigger] r[j].target) by {
        assert(r[i] == kept[i]);
        if j < kept.len() {
            assert(r[j] == kept[j]);
        } else {
            assert(!same_path(kept[i].target, target));
        }
    }
    assert forall|i: int| 0 <= i < r.len() && same_path(#[trigger] r[i].target, target) implies added && i == r.len() - 1 by {
        if i < kept.len() {
            assert(r[i] == kept[i]);
        }
    }
}

/// After the assignments of a removed source are dropped, none points at it.
pub proof fn law_no_assignment_of_a_removed_source<D>(s: Seq<Assignment<D>>, source: Seq<char>)
    ensures
        forall|i: int| 0 <= i < without_source(s, source).len() ==> (#[trigger] without_source(s, source)[i]).source@
            != source,
{
    lemma_without_source(s, source);
}

/// Drops every assignment whose source is `source`.
pub fn drop_source<D>(assignments: &mut Vec<Assignment<D>>, source: &str)
    ensures
        final(assignments)@ == without_source(old(assignments)@, source@),
{
    let mut rest: Vec<Assignment<D>> = Vec::new();
    std::mem::swap(&mut rest, assignments);
    let ghost all = rest@;
    let n = rest.len();
    let id = chars_of(source);
    let mut i: usize = 0;
    while rest.len() > 0
        invariant
            n == all.len(),
            i + rest@.len() == all.len(),
            rest@ == all.subrange(i as int, all.len() as int),
            assignments@ == without_source(all.subrange(0, i as int), source@),
            id@ == source@,
        decreases rest@.len(),
    {
        let a = rest.remove(0);
        let keep = !chars_eq(&chars_of_string(&a.source), &id);
        proof {
            assert(all.subrange(0, i + 1).drop_last() =~= all.subrange(0, i as int));
            assert(all.subrange(0, i + 1).last() == a);
        }
        if keep {
            assignments.push(a);
        }
        i = i + 1;
        proof {
            assert(rest@ =~= all.subrange(i as int, all.len() as int));
        }
    }
    assert(all.subrange(0, i as int) =~= all);
}

fn path_copy(p: &ParamPath) -> (r: ParamPath)
    ensures
        r == *p,
{
    ParamPath { node: p.node.copy(), param: p.param.clone() }
}

/// Sets, or with no source clears, the single assignment of `target`: every
/// assignment of `target` goes, and with a source a new one is appended.
pub fn assign<D>(assignments: &mut Vec<Assignment<D>>, target: &ParamPath, source: Option<&str>, depth: D)
    ensures
        assigned_from(old(assignments)@, *target, final(assignments)@, source is Some),
        source matches Some(s) ==> final(assignments)@.last().source@ == s@ && final(assignments)@.last().depth
            == depth,
{
    let mut rest: Vec<Assignment<D>> = Vec::new();
    std::mem::swap(&mut rest, assignments);
    let ghost all = rest@;
    let n = rest.len();
    let mut i: usize = 0;
    while rest.len() > 0
        invariant
            n == all.len(),
            i + rest@.len() == all.len(),
            rest@ == all.subrange(i as int, all.len() as int),
            assignments@ == without_target(all.subrange(0, i as int), *target),
        decreases rest@.len(),
    {
        let a = rest.remove(0);
        let keep = !(a.target.node.same(&target.node) && crate::text::string_eq(&a.target.param, &target.param));
        proof {
            assert(all.subrange(0, i + 1).drop_last() =~= all.subrange(0, i as int));
            assert(all.subrange(0, i + 1).last() == a);
        }
        if keep {
            assignments.push(a);
        }
        i = i + 1;
        proof {
            assert(rest@ =~= all.subrange(i as int, all.len() as int));
        }
    }
    assert(all.subrange(0, i as int) =~= all);
    let ghost kept = assignments@;
    match source {
        Some(s) => {
            assignments.push(Assignment { target: path_copy(target), source: s.to_string(), depth });
        },
        None => {},
    }
    assert(assignments@.subrange(0, kept.len() as int) =~= kept);
}

} // verus!
