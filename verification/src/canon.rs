//! Canonicalization of a separator-normalized native path: the string is
//! split at backslashes, `.` segments are dropped, each `..` segment removes
//! the segment before it (never the leading drive segment), and the segments
//! are joined back with single backslashes.

use vstd::prelude::*;
use vstd::string::*;

use crate::rewrite::norm_shape;
use crate::text::{is_sep, push_char, str_eq};

verus! {

/// The views of a sequence of owned segments.
pub open spec fn seg_views(v: Seq<String>) -> Seq<Seq<char>> {
    v.map_values(|t: String| t@)
}

/// Splitting a character sequence at every backslash. The empty sequence
/// splits into one empty segment; a string of n backslashes into n + 1.
pub open spec fn split_at_bs(s: Seq<char>) -> Seq<Seq<char>>
    decreases s.len(),
{
    if s.len() == 0 {
        seq![Seq::<char>::empty()]
    } else if s[0] == '\\' {
        seq![Seq::<char>::empty()] + split_at_bs(s.skip(1))
    } else {
        let rest = split_at_bs(s.skip(1));
        seq![seq![s[0]] + rest[0]] + rest.skip(1)
    }
}

pub proof fn lemma_split_nonempty(s: Seq<char>)
    ensures
        split_at_bs(s).len() >= 1,
    decreases s.len(),
{
    if s.len() != 0 {
        lemma_split_nonempty(s.skip(1));
    }
}

/// Folding the segments after the drive segment onto a stack: `.` is
/// dropped, `..` removes the segment most recently kept (and is dropped
/// itself when nothing is left to remove), anything else is kept.
pub open spec fn resolve_onto(segs: Seq<Seq<char>>, stack: Seq<Seq<char>>) -> Seq<Seq<char>>
    decreases segs.len(),
{
    if segs.len() == 0 {
        stack
    } else {
        let seg = segs[0];
        let stack2 = if seg == seq!['.'] {
            stack
        } else if seg == seq!['.', '.'] {
            if stack.len() > 0 {
                stack.drop_last()
            } else {
                stack
            }
        } else {
            stack.push(seg)
        };
        resolve_onto(segs.skip(1), stack2)
    }
}

/// Joining segments with single backslashes.
pub open spec fn join_bs(segs: Seq<Seq<char>>) -> Seq<char>
    decreases segs.len(),
{
    if segs.len() == 0 {
        Seq::empty()
    } else if segs.len() == 1 {
        segs[0]
    } else {
        segs[0] + seq!['\\'] + join_bs(segs.skip(1))
    }
}

pub proof fn lemma_join_push(l: Seq<Seq<char>>, x: Seq<char>)
    requires
        l.len() >= 1,
    ensures
        join_bs(l.push(x)) == join_bs(l) + seq!['\\'] + x,
    decreases l.len(),
{
    if l.len() == 1 {
        assert(l.push(x).skip(1) =~= seq![x]);
        assert(join_bs(seq![x]) == x);
        assert(l.push(x)[0] == l[0]);
        assert(join_bs(l.push(x)) == l[0] + seq!['\\'] + x);
        assert(join_bs(l) == l[0]);
    } else {
        lemma_join_push(l.skip(1), x);
        assert(l.push(x).skip(1) =~= l.skip(1).push(x));
        assert(l.push(x)[0] == l[0]);
        assert(join_bs(l.push(x)) == l[0] + seq!['\\'] + join_bs(l.skip(1).push(x)));
        assert(join_bs(l) == l[0] + seq!['\\'] + join_bs(l.skip(1)));
        assert(l[0] + seq!['\\'] + (join_bs(l.skip(1)) + seq!['\\'] + x) =~= (l[0] + seq!['\\']
            + join_bs(l.skip(1))) + seq!['\\'] + x);
    }
}

/// The meaning of the whole stage: the first segment survives as the drive
/// or root, the rest is resolved onto a stack, and everything is joined.
/// When `..` segments consume the whole stack of a path that had more than
/// one segment, one empty segment is kept, so the root's backslash
/// survives: `C:\..` resolves to `C:\`, not to a drive-relative `C:`.
pub open spec fn dots_resolved(s: Seq<char>) -> Seq<char> {
    let segs = split_at_bs(s);
    let stack = resolve_onto(segs.skip(1), Seq::empty());
    let kept = if stack.len() == 0 && segs.len() > 1 {
        seq![Seq::<char>::empty()]
    } else {
        stack
    };
    join_bs(seq![segs[0]] + kept)
}

/// Splits a string into its backslash-separated segments.
fn split_segments(s: &str) -> (r: Vec<String>)
    ensures
        seg_views(r@) == split_at_bs(s@),
        r@.len() >= 1,
{
    let len = s.unicode_len();
    let mut done: Vec<String> = Vec::new();
    let mut cur: String = String::new();
    let mut i: usize = 0;
    proof {
        assert(s@.skip(0) =~= s@);
        lemma_split_nonempty(s@);
        assert(seg_views(done@) + seq![cur@ + split_at_bs(s@)[0]] + split_at_bs(s@).skip(1)
            =~= split_at_bs(s@));
    }
    while i < len
        invariant
            len == s@.len(),
            i <= len,
            split_at_bs(s@) == seg_views(done@) + seq![cur@ + split_at_bs(s@.skip(i as int))[0]]
                + split_at_bs(s@.skip(i as int)).skip(1),
        decreases len - i,
    {
        let c = s.get_char(i);
        let ghost old_done = done@;
        let ghost old_cur = cur@;
        proof {
            assert(s@.skip(i as int)[0] == s@[i as int]);
            assert(s@.skip(i as int).skip(1) =~= s@.skip(i as int + 1));
            lemma_split_nonempty(s@.skip(i as int + 1));
        }
        let ghost rest = split_at_bs(s@.skip(i as int + 1));
        if c == '\\' {
            let finished = cur;
            cur = String::new();
            done.push(finished);
            proof {
                assert(seg_views(done@) =~= seg_views(old_done).push(old_cur));
                assert(split_at_bs(s@.skip(i as int)) == seq![Seq::<char>::empty()] + rest);
                assert((seq![Seq::<char>::empty()] + rest)[0] =~= Seq::<char>::empty());
                assert((seq![Seq::<char>::empty()] + rest).skip(1) =~= rest);
                assert(old_cur + Seq::<char>::empty() =~= old_cur);
                assert(seq![rest[0]] + rest.skip(1) =~= rest);
                assert(seg_views(done@) + seq![cur@ + rest[0]] + rest.skip(1) =~= seg_views(
                    old_done,
                ) + seq![old_cur + split_at_bs(s@.skip(i as int))[0]] + split_at_bs(
                    s@.skip(i as int),
                ).skip(1));
            }
        } else {
            push_char(&mut cur, c);
            proof {
                assert(split_at_bs(s@.skip(i as int)) == seq![seq![s@[i as int]] + rest[0]]
                    + rest.skip(1));
                assert((seq![seq![s@[i as int]] + rest[0]] + rest.skip(1))[0] == seq![s@[i as int]]
                    + rest[0]);
                assert((seq![seq![s@[i as int]] + rest[0]] + rest.skip(1)).skip(1) =~= rest.skip(
                    1,
                ));
                assert(old_cur + (seq![s@[i as int]] + rest[0]) =~= cur@ + rest[0]);
                assert(seg_views(done@) + seq![cur@ + rest[0]] + rest.skip(1) =~= seg_views(
                    old_done,
                ) + seq![old_cur + split_at_bs(s@.skip(i as int))[0]] + split_at_bs(
                    s@.skip(i as int),
                ).skip(1));
            }
        }
        i = i + 1;
    }
    done.push(cur);
    proof {
        assert(s@.skip(len as int) =~= Seq::<char>::empty());
        assert(seg_views(done@) =~= split_at_bs(s@));
    }
    done
}

/// Resolves `.` and `..` segments of a separator-normalized path and joins
/// the result back with single backslashes. The leading segment (a drive
/// such as `C:`, or the empty root before a leading backslash) is never
/// removed, `..` never climbs above it, and the root's backslash survives
/// even when `..` consumes every following segment: `C:\..` yields `C:\`.
pub fn resolve_dots(s: &str) -> (r: String)
    ensures
        r@ == dots_resolved(s@),
{
    let segs = split_segments(s);
    let ghost segs_v = seg_views(segs@);
    let mut stack: Vec<String> = Vec::new();
    let mut idx: usize = 1;
    proof {
        assert(seg_views(stack@) =~= Seq::<Seq<char>>::empty());
    }
    while idx < segs.len()
        invariant
            1 <= idx <= segs@.len(),
            segs_v == seg_views(segs@),
            segs_v.len() == segs@.len(),
            resolve_onto(segs_v.skip(1), Seq::empty()) == resolve_onto(
                segs_v.skip(idx as int),
                seg_views(stack@),
            ),
        decreases segs@.len() - idx,
    {
        let seg = &segs[idx];
        let ghost pre_stack = seg_views(stack@);
        proof {
            assert(segs_v.skip(idx as int)[0] == segs_v[idx as int]);
            assert(segs_v[idx as int] == seg@);
            assert(segs_v.skip(idx as int).skip(1) =~= segs_v.skip(idx as int + 1));
            reveal_strlit(".");
            reveal_strlit("..");
            assert("."@ =~= seq!['.']);
            assert(".."@ =~= seq!['.', '.']);
        }
        if str_eq(seg.as_str(), ".") {
            proof {
                assert(seg@ == seq!['.']);
                assert(resolve_onto(segs_v.skip(idx as int), pre_stack) == resolve_onto(
                    segs_v.skip(idx as int + 1),
                    seg_views(stack@),
                ));
            }
        } else if str_eq(seg.as_str(), "..") {
            proof {
                assert(seg@ == seq!['.', '.'] && seg@ != seq!['.']);
            }
            if stack.len() > 0 {
                let ghost pre = stack@;
                stack.pop();
                proof {
                    assert(seg_views(stack@) =~= seg_views(pre).drop_last());
                    assert(resolve_onto(segs_v.skip(idx as int), pre_stack) == resolve_onto(
                        segs_v.skip(idx as int + 1),
                        seg_views(stack@),
                    ));
                }
            } else {
                proof {
                    assert(pre_stack.len() == 0);
                    assert(resolve_onto(segs_v.skip(idx as int), pre_stack) == resolve_onto(
                        segs_v.skip(idx as int + 1),
                        seg_views(stack@),
                    ));
                }
            }
        } else {
            proof {
                assert(seg@ != seq!['.'] && seg@ != seq!['.', '.']);
            }
            stack.push(seg.clone());
            proof {
                assert(seg_views(stack@) =~= pre_stack.push(seg@));
                assert(resolve_onto(segs_v.skip(idx as int), pre_stack) == resolve_onto(
                    segs_v.skip(idx as int + 1),
                    seg_views(stack@),
                ));
            }
        }
        idx = idx + 1;
    }
    proof {
        assert(segs_v.skip(segs_v.len() as int) =~= Seq::<Seq<char>>::empty());
    }
    let ghost resolved = seg_views(stack@);
    proof {
        assert(resolve_onto(Seq::<Seq<char>>::empty(), resolved) == resolved);
        assert(resolved == resolve_onto(segs_v.skip(1), Seq::empty()));
    }
    if stack.len() == 0 && segs.len() > 1 {
        // `..` consumed every kept segment: keep one empty trailing segment
        // so the root's backslash survives
        stack.push(String::new());
        proof {
            assert(seg_views(stack@) =~~= seq![Seq::<char>::empty()]);
        }
    }
    let ghost stack_v = seg_views(stack@);
    let first = &segs[0];
    let mut out: String = first.clone();
    let mut k: usize = 0;
    proof {
        assert(seq![segs_v[0]] + stack_v.take(0) =~= seq![segs_v[0]]);
        assert(join_bs(seq![segs_v[0]]) == segs_v[0]);
    }
    while k < stack.len()
        invariant
            k <= stack@.len(),
            stack_v == seg_views(stack@),
            stack_v.len() == stack@.len(),
            segs_v == seg_views(segs@),
            segs@.len() >= 1,
            out@ == join_bs(seq![segs_v[0]] + stack_v.take(k as int)),
        decreases stack@.len() - k,
    {
        push_char(&mut out, '\\');
        let segref = &stack[k];
        out.append(segref.as_str());
        proof {
            lemma_join_push(seq![segs_v[0]] + stack_v.take(k as int), stack_v[k as int]);
            assert((seq![segs_v[0]] + stack_v.take(k as int)).push(stack_v[k as int]) =~= seq![
                segs_v[0],
            ] + stack_v.take(k as int + 1));
            assert(out@ =~= join_bs(seq![segs_v[0]] + stack_v.take(k as int)) + seq!['\\']
                + stack_v[k as int]);
        }
        k = k + 1;
    }
    proof {
        assert(stack_v.take(stack_v.len() as int) =~= stack_v);
        assert(out@ == dots_resolved(s@));
    }
    out
}

/// A segment with no separator character in it.
pub open spec fn sep_free(t: Seq<char>) -> bool {
    forall|j: int| 0 <= j < t.len() ==> !is_sep(#[trigger] t[j])
}

/// A segment that is neither `.` nor `..`.
pub open spec fn plain_seg(t: Seq<char>) -> bool {
    t != seq!['.'] && t != seq!['.', '.']
}

proof fn lemma_split_first(s: Seq<char>)
    ensures
        s.len() > 0 && s[0] != '\\' ==> split_at_bs(s)[0].len() > 0 && split_at_bs(s)[0][0]
            == s[0],
        s.len() == 0 || s[0] == '\\' ==> split_at_bs(s)[0] == Seq::<char>::empty(),
{
    if s.len() == 0 {
    } else if s[0] == '\\' {
    } else {
        lemma_split_nonempty(s.skip(1));
    }
}

proof fn lemma_split_sep_free(s: Seq<char>)
    requires
        forall|k: int| 0 <= k < s.len() ==> s[k] != '/',
    ensures
        forall|i: int|
            0 <= i < split_at_bs(s).len() ==> sep_free(#[trigger] split_at_bs(s)[i]),
    decreases s.len(),
{
    if s.len() == 0 {
    } else {
        assert forall|k: int| 0 <= k < s.skip(1).len() implies s.skip(1)[k] != '/' by {
            assert(s.skip(1)[k] == s[k + 1]);
        }
        lemma_split_sep_free(s.skip(1));
        lemma_split_nonempty(s.skip(1));
        let rest = split_at_bs(s.skip(1));
        if s[0] == '\\' {
            assert forall|i: int| 0 <= i < split_at_bs(s).len() implies sep_free(
                #[trigger] split_at_bs(s)[i],
            ) by {
                if i > 0 {
                    assert(split_at_bs(s)[i] == rest[i - 1]);
                }
            }
        } else {
            assert(s[0] != '/' && s[0] != '\\');
            let head = seq![s[0]] + rest[0];
            assert(sep_free(head)) by {
                assert(forall|j: int| 1 <= j < head.len() ==> head[j] == rest[0][j - 1]);
            }
            assert forall|i: int| 0 <= i < split_at_bs(s).len() implies sep_free(
                #[trigger] split_at_bs(s)[i],
            ) by {
                if i > 0 {
                    assert(split_at_bs(s)[i] == rest.skip(1)[i - 1]);
                    assert(rest.skip(1)[i - 1] == rest[i]);
                }
            }
        }
    }
}

proof fn lemma_split_mid_nonempty(s: Seq<char>)
    requires
        forall|k: int| 0 <= k && k + 1 < s.len() ==> !(s[k] == '\\' && #[trigger] s[k + 1]
            == '\\'),
    ensures
        forall|i: int|
            1 <= i < split_at_bs(s).len() - 1 ==> (#[trigger] split_at_bs(s)[i]).len() > 0,
    decreases s.len(),
{
    if s.len() == 0 {
    } else {
        assert forall|k: int| 0 <= k && k + 1 < s.skip(1).len() implies !(s.skip(1)[k] == '\\'
            && #[trigger] s.skip(1)[k + 1] == '\\') by {
            assert(s.skip(1)[k] == s[k + 1] && s.skip(1)[k + 1] == s[k + 2]);
        }
        lemma_split_mid_nonempty(s.skip(1));
        lemma_split_nonempty(s.skip(1));
        let rest = split_at_bs(s.skip(1));
        if s[0] == '\\' {
            assert(s.len() >= 2 ==> s[1] != '\\');
            lemma_split_first(s.skip(1));
            assert(s.len() >= 2 ==> s.skip(1)[0] == s[1]);
            assert forall|i: int| 1 <= i < split_at_bs(s).len() - 1 implies (
            #[trigger] split_at_bs(s)[i]).len() > 0 by {
                assert(split_at_bs(s)[i] == rest[i - 1]);
                if i == 1 {
                    assert(rest.len() >= 2);
                    assert(s.skip(1).len() > 0);
                }
            }
        } else {
            assert forall|i: int| 1 <= i < split_at_bs(s).len() - 1 implies (
            #[trigger] split_at_bs(s)[i]).len() > 0 by {
                assert(split_at_bs(s)[i] == rest.skip(1)[i - 1]);
                assert(rest.skip(1)[i - 1] == rest[i]);
            }
        }
    }
}

proof fn lemma_split_single(s: Seq<char>)
    requires
        forall|j: int| 0 <= j < s.len() ==> s[j] != '\\',
    ensures
        split_at_bs(s) == seq![s],
    decreases s.len(),
{
    if s.len() == 0 {
        assert(split_at_bs(s) =~~= seq![s]);
    } else {
        assert forall|j: int| 0 <= j < s.skip(1).len() implies s.skip(1)[j] != '\\' by {
            assert(s.skip(1)[j] == s[j + 1]);
        }
        lemma_split_single(s.skip(1));
        assert(seq![seq![s[0]] + s.skip(1)] + seq![s.skip(1)].skip(1) =~~= seq![s]);
    }
}

proof fn lemma_split_prepend(x: Seq<char>, y: Seq<char>)
    requires
        forall|j: int| 0 <= j < x.len() ==> x[j] != '\\',
    ensures
        split_at_bs(x + seq!['\\'] + y) == seq![x] + split_at_bs(y),
    decreases x.len(),
{
    let s = x + seq!['\\'] + y;
    if x.len() == 0 {
        assert(s[0] == '\\');
        assert(s.skip(1) =~= y);
        assert(split_at_bs(s) =~~= seq![x] + split_at_bs(y));
    } else {
        assert forall|j: int| 0 <= j < x.skip(1).len() implies x.skip(1)[j] != '\\' by {
            assert(x.skip(1)[j] == x[j + 1]);
        }
        lemma_split_prepend(x.skip(1), y);
        lemma_split_nonempty(y);
        assert(s[0] == x[0] && s[0] != '\\');
        assert(s.skip(1) =~= x.skip(1) + seq!['\\'] + y);
        let rest = split_at_bs(s.skip(1));
        assert(rest == seq![x.skip(1)] + split_at_bs(y));
        assert(rest[0] == x.skip(1));
        assert(seq![s[0]] + rest[0] =~= x);
        assert(rest.skip(1) =~~= split_at_bs(y));
        assert(split_at_bs(s) =~~= seq![x] + split_at_bs(y));
    }
}

proof fn lemma_split_join(l: Seq<Seq<char>>)
    requires
        l.len() >= 1,
        forall|i: int|
            0 <= i < l.len() ==> forall|j: int|
                0 <= j < (#[trigger] l[i]).len() ==> #[trigger] l[i][j] != '\\',
    ensures
        split_at_bs(join_bs(l)) == l,
    decreases l.len(),
{
    if l.len() == 1 {
        lemma_split_single(l[0]);
        assert(split_at_bs(join_bs(l)) =~~= l);
    } else {
        lemma_split_join(l.skip(1));
        lemma_split_prepend(l[0], join_bs(l.skip(1)));
        assert(join_bs(l) == l[0] + seq!['\\'] + join_bs(l.skip(1)));
        assert(seq![l[0]] + l.skip(1) =~~= l);
    }
}

proof fn lemma_join_split(s: Seq<char>)
    ensures
        join_bs(split_at_bs(s)) == s,
    decreases s.len(),
{
    if s.len() == 0 {
    } else {
        lemma_join_split(s.skip(1));
        lemma_split_nonempty(s.skip(1));
        let rest = split_at_bs(s.skip(1));
        if s[0] == '\\' {
            let l = seq![Seq::<char>::empty()] + rest;
            assert(l.len() >= 2);
            assert(l.skip(1) =~= rest);
            assert(join_bs(l) == l[0] + seq!['\\'] + join_bs(rest));
            assert(Seq::<char>::empty() + seq!['\\'] + s.skip(1) =~= s);
        } else {
            let l = seq![seq![s[0]] + rest[0]] + rest.skip(1);
            if rest.len() == 1 {
                assert(l =~= seq![seq![s[0]] + rest[0]]);
                assert(join_bs(l) == seq![s[0]] + rest[0]);
                assert(join_bs(rest) == rest[0]);
                assert(seq![s[0]] + rest[0] =~= s);
            } else {
                assert(l.len() >= 2);
                assert(l.skip(1) =~= rest.skip(1));
                assert(join_bs(l) == l[0] + seq!['\\'] + join_bs(rest.skip(1)));
                assert(join_bs(rest) == rest[0] + seq!['\\'] + join_bs(rest.skip(1)));
                assert(seq![s[0]] + (rest[0] + seq!['\\'] + join_bs(rest.skip(1))) =~= (seq![
                    s[0],
                ] + rest[0]) + seq!['\\'] + join_bs(rest.skip(1)));
                assert(seq![s[0]] + join_bs(rest) =~= join_bs(l));
                assert(seq![s[0]] + s.skip(1) =~= s);
            }
        }
    }
}

/// The joined length of a segment list: each segment and one separator.
pub open spec fn seg_total(l: Seq<Seq<char>>) -> nat
    decreases l.len(),
{
    if l.len() == 0 {
        0
    } else {
        l[0].len() + 1 + seg_total(l.skip(1))
    }
}

proof fn lemma_seg_total_push(l: Seq<Seq<char>>, x: Seq<char>)
    ensures
        seg_total(l.push(x)) == seg_total(l) + x.len() + 1,
    decreases l.len(),
{
    if l.len() == 0 {
        assert(l.push(x).skip(1) =~~= Seq::<Seq<char>>::empty());
        assert(l.push(x)[0] == x);
        assert(seg_total(Seq::<Seq<char>>::empty()) == 0);
        assert(seg_total(l) == 0);
    } else {
        lemma_seg_total_push(l.skip(1), x);
        assert(l.push(x).skip(1) =~~= l.skip(1).push(x));
        assert(l.push(x)[0] == l[0]);
    }
}

proof fn lemma_seg_total_concat(a: Seq<Seq<char>>, b: Seq<Seq<char>>)
    ensures
        seg_total(a + b) == seg_total(a) + seg_total(b),
    decreases a.len(),
{
    if a.len() == 0 {
        assert(a + b =~= b);
    } else {
        lemma_seg_total_concat(a.skip(1), b);
        assert((a + b).skip(1) =~= a.skip(1) + b);
        assert((a + b)[0] == a[0]);
    }
}

proof fn lemma_join_len(l: Seq<Seq<char>>)
    requires
        l.len() >= 1,
    ensures
        join_bs(l).len() + 1 == seg_total(l),
    decreases l.len(),
{
    if l.len() == 1 {
        assert(l.skip(1).len() == 0);
        assert(seg_total(l.skip(1)) == 0);
        assert(join_bs(l) == l[0]);
    } else {
        lemma_join_len(l.skip(1));
        assert(join_bs(l) == l[0] + seq!['\\'] + join_bs(l.skip(1)));
        assert(join_bs(l).len() == l[0].len() + 1 + join_bs(l.skip(1)).len());
    }
}

proof fn lemma_resolve_total(segs: Seq<Seq<char>>, stack: Seq<Seq<char>>)
    ensures
        seg_total(resolve_onto(segs, stack)) <= seg_total(stack) + seg_total(segs),
    decreases segs.len(),
{
    if segs.len() == 0 {
    } else {
        let seg = segs[0];
        if seg == seq!['.'] {
            lemma_resolve_total(segs.skip(1), stack);
        } else if seg == seq!['.', '.'] {
            if stack.len() > 0 {
                lemma_resolve_total(segs.skip(1), stack.drop_last());
                lemma_seg_total_push(stack.drop_last(), stack.last());
                assert(stack.drop_last().push(stack.last()) =~= stack);
            } else {
                lemma_resolve_total(segs.skip(1), stack);
            }
        } else {
            lemma_resolve_total(segs.skip(1), stack.push(seg));
            lemma_seg_total_push(stack, seg);
        }
    }
}

proof fn lemma_resolve_shape(segs: Seq<Seq<char>>, stack: Seq<Seq<char>>)
    requires
        forall|i: int|
            0 <= i < stack.len() ==> plain_seg(#[trigger] stack[i]) && sep_free(stack[i]),
        forall|i: int| 0 <= i < segs.len() ==> sep_free(#[trigger] segs[i]),
    ensures
        forall|i: int|
            0 <= i < resolve_onto(segs, stack).len() ==> plain_seg(
                #[trigger] resolve_onto(segs, stack)[i],
            ) && sep_free(resolve_onto(segs, stack)[i]),
    decreases segs.len(),
{
    if segs.len() == 0 {
    } else {
        let seg = segs[0];
        assert(forall|i: int| 0 <= i < segs.skip(1).len() ==> segs.skip(1)[i] == segs[i + 1]);
        if seg == seq!['.'] {
            assert(resolve_onto(segs, stack) == resolve_onto(segs.skip(1), stack));
            lemma_resolve_shape(segs.skip(1), stack);
        } else if seg == seq!['.', '.'] {
            if stack.len() > 0 {
                assert(resolve_onto(segs, stack) == resolve_onto(
                    segs.skip(1),
                    stack.drop_last(),
                ));
                assert(forall|i: int|
                    0 <= i < stack.drop_last().len() ==> stack.drop_last()[i] == stack[i]);
                lemma_resolve_shape(segs.skip(1), stack.drop_last());
            } else {
                assert(resolve_onto(segs, stack) == resolve_onto(segs.skip(1), stack));
                lemma_resolve_shape(segs.skip(1), stack);
            }
        } else {
            assert(resolve_onto(segs, stack) == resolve_onto(segs.skip(1), stack.push(seg)));
            assert(forall|i: int|
                0 <= i < stack.push(seg).len() ==> (i < stack.len() ==> stack.push(seg)[i]
                    == stack[i]) && (i == stack.len() ==> stack.push(seg)[i] == seg));
            lemma_resolve_shape(segs.skip(1), stack.push(seg));
        }
    }
}

proof fn lemma_resolve_mid_nonempty(segs: Seq<Seq<char>>, stack: Seq<Seq<char>>)
    requires
        forall|i: int| 0 <= i < segs.len() - 1 ==> (#[trigger] segs[i]).len() > 0,
        forall|i: int| 0 <= i < stack.len() ==> (#[trigger] stack[i]).len() > 0,
    ensures
        forall|i: int|
            0 <= i < resolve_onto(segs, stack).len() - 1 ==> (#[trigger] resolve_onto(
                segs,
                stack,
            )[i]).len() > 0,
    decreases segs.len(),
{
    if segs.len() == 0 {
    } else {
        let seg = segs[0];
        assert(forall|i: int| 0 <= i < segs.skip(1).len() ==> segs.skip(1)[i] == segs[i + 1]);
        if seg == seq!['.'] {
            assert(resolve_onto(segs, stack) == resolve_onto(segs.skip(1), stack));
            lemma_resolve_mid_nonempty(segs.skip(1), stack);
        } else if seg == seq!['.', '.'] {
            if stack.len() > 0 {
                assert(resolve_onto(segs, stack) == resolve_onto(
                    segs.skip(1),
                    stack.drop_last(),
                ));
                assert(forall|i: int|
                    0 <= i < stack.drop_last().len() ==> stack.drop_last()[i] == stack[i]);
                lemma_resolve_mid_nonempty(segs.skip(1), stack.drop_last());
            } else {
                assert(resolve_onto(segs, stack) == resolve_onto(segs.skip(1), stack));
                lemma_resolve_mid_nonempty(segs.skip(1), stack);
            }
        } else {
            assert(resolve_onto(segs, stack) == resolve_onto(segs.skip(1), stack.push(seg)));
            if segs.len() == 1 {
                assert(segs.skip(1).len() == 0);
                assert(resolve_onto(segs.skip(1), stack.push(seg)) == stack.push(seg));
                assert(forall|i: int|
                    0 <= i < stack.push(seg).len() - 1 ==> stack.push(seg)[i] == stack[i]);
            } else {
                assert(seg.len() > 0);
                assert(forall|i: int|
                    0 <= i < stack.push(seg).len() ==> (i < stack.len() ==> stack.push(seg)[i]
                        == stack[i]) && (i == stack.len() ==> stack.push(seg)[i] == seg));
                lemma_resolve_mid_nonempty(segs.skip(1), stack.push(seg));
            }
        }
    }
}

proof fn lemma_resolve_plain_id(l: Seq<Seq<char>>, stack: Seq<Seq<char>>)
    requires
        forall|i: int| 0 <= i < l.len() ==> plain_seg(#[trigger] l[i]),
    ensures
        resolve_onto(l, stack) == stack + l,
    decreases l.len(),
{
    if l.len() == 0 {
        assert(stack + l =~= stack);
    } else {
        assert(forall|i: int| 0 <= i < l.skip(1).len() ==> l.skip(1)[i] == l[i + 1]);
        lemma_resolve_plain_id(l.skip(1), stack.push(l[0]));
        assert(stack.push(l[0]) + l.skip(1) =~= stack + l);
    }
}

proof fn lemma_shape_glue(x: Seq<char>, y: Seq<char>)
    requires
        sep_free(x),
        norm_shape(y),
        y.len() > 0 ==> !is_sep(y[0]),
    ensures
        norm_shape(x + seq!['\\'] + y),
{
    let s = x + seq!['\\'] + y;
    assert forall|i: int| 0 <= i < s.len() implies s[i] != '/' by {
        if i < x.len() {
            assert(s[i] == x[i]);
        } else if i > x.len() {
            assert(s[i] == y[i - x.len() - 1]);
        }
    }
    assert forall|i: int| 0 <= i && i + 1 < s.len() implies !(is_sep(s[i]) && is_sep(
        #[trigger] s[i + 1],
    )) by {
        if i + 1 < x.len() {
            assert(s[i] == x[i]);
        } else if i + 1 == x.len() {
            assert(s[i] == x[i]);
        } else if i + 1 == x.len() + 1 {
            // the pair around the inserted backslash: x's last character is
            // not a separator, and neither is y's first
            if i >= 0 && i < x.len() {
                assert(s[i] == x[i]);
            } else {
                assert(s[i + 1] == y[0]);
            }
        } else {
            let j = i - x.len() - 1;
            assert(s[i] == y[j] && s[i + 1] == y[j + 1]);
            assert(!(is_sep(y[j]) && is_sep(y[j + 1])));
        }
    }
}

proof fn lemma_join_shape(l: Seq<Seq<char>>)
    requires
        l.len() >= 1,
        forall|i: int| 0 <= i < l.len() ==> sep_free(#[trigger] l[i]),
        forall|i: int| 1 <= i < l.len() - 1 ==> (#[trigger] l[i]).len() > 0,
    ensures
        norm_shape(join_bs(l)),
        l[0].len() > 0 ==> join_bs(l).len() > 0 && join_bs(l)[0] == l[0][0],
        l[0].len() == 0 && l.len() >= 2 ==> join_bs(l).len() > 0 && join_bs(l)[0] == '\\',
    decreases l.len(),
{
    if l.len() == 1 {
        assert(norm_shape(join_bs(l)));
    } else {
        assert(forall|i: int| 0 <= i < l.skip(1).len() ==> l.skip(1)[i] == l[i + 1]);
        lemma_join_shape(l.skip(1));
        let y = join_bs(l.skip(1));
        assert(l.skip(1)[0] == l[1]);
        if l[1].len() > 0 {
            assert(y.len() > 0 && y[0] == l[1][0]);
            assert(!is_sep(y[0]));
        } else {
            // an empty segment is only allowed last, so the tail is just it
            assert(l.len() == 2);
            assert(l.skip(1) =~= seq![l[1]]);
            assert(y == l[1]);
        }
        lemma_shape_glue(l[0], y);
        assert(join_bs(l) == l[0] + seq!['\\'] + y);
        assert(join_bs(l).len() == l[0].len() + 1 + y.len());
        if l[0].len() > 0 {
            assert(join_bs(l)[0] == l[0][0]);
        } else {
            assert(join_bs(l)[0] == (l[0] + seq!['\\'] + y)[0]);
            assert(join_bs(l)[0] == '\\');
        }
    }
}

/// Dot resolution of a string in normalized shape yields a string in
/// normalized shape again, no longer than its input, starting with the same
/// character (or a backslash), and is a fixpoint: resolving twice changes
/// nothing more.
pub proof fn lemma_dots_canonical(n: Seq<char>)
    requires
        norm_shape(n),
    ensures
        norm_shape(dots_resolved(n)),
        dots_resolved(n).len() <= n.len(),
        dots_resolved(dots_resolved(n)) == dots_resolved(n),
        dots_resolved(n).len() > 0 ==> dots_resolved(n)[0] == '\\' || (n.len() > 0
            && dots_resolved(n)[0] == n[0]),
{
    let segs = split_at_bs(n);
    let seg0 = segs[0];
    let stack = resolve_onto(segs.skip(1), Seq::empty());
    let kept = if stack.len() == 0 && segs.len() > 1 {
        seq![Seq::<char>::empty()]
    } else {
        stack
    };
    let l = seq![seg0] + kept;
    let c = dots_resolved(n);
    lemma_split_nonempty(n);
    lemma_split_sep_free(n);
    assert forall|k: int| 0 <= k && k + 1 < n.len() implies !(n[k] == '\\' && #[trigger] n[k
        + 1] == '\\') by {
        assert(!(is_sep(n[k]) && is_sep(n[k + 1])));
    }
    lemma_split_mid_nonempty(n);
    assert(forall|i: int| 0 <= i < segs.skip(1).len() ==> segs.skip(1)[i] == segs[i + 1]);
    lemma_resolve_shape(segs.skip(1), Seq::empty());
    lemma_resolve_mid_nonempty(segs.skip(1), Seq::empty());
    if stack.len() == 0 && segs.len() > 1 {
        assert(plain_seg(Seq::<char>::empty()));
        assert(sep_free(Seq::<char>::empty()));
    }
    assert(forall|i: int|
        0 <= i < kept.len() ==> plain_seg(#[trigger] kept[i]) && sep_free(kept[i]));
    assert(forall|i: int| 0 <= i < kept.len() - 1 ==> (#[trigger] kept[i]).len() > 0);
    assert(forall|i: int| 0 <= i < l.len() ==> (i == 0 ==> l[i] == seg0) && (i > 0 ==> l[i]
        == kept[i - 1]));
    assert(forall|i: int| 0 <= i < l.len() ==> sep_free(#[trigger] l[i]));
    assert forall|i: int| 1 <= i < l.len() - 1 implies (#[trigger] l[i]).len() > 0 by {
        assert(l[i] == kept[i - 1]);
        assert(i - 1 < kept.len() - 1);
    }
    lemma_join_shape(l);
    assert(c == join_bs(l));
    // first character
    lemma_split_first(n);
    // length bound
    lemma_join_len(l);
    lemma_seg_total_concat(seq![seg0], kept);
    assert(seg_total(seq![seg0]) == seg0.len() + 1) by {
        assert(seq![seg0].skip(1).len() == 0);
        assert(seg_total(seq![seg0].skip(1)) == 0);
        assert(seq![seg0][0] == seg0);
    }
    lemma_resolve_total(segs.skip(1), Seq::empty());
    assert(seg_total(Seq::<Seq<char>>::empty()) == 0);
    if stack.len() == 0 && segs.len() > 1 {
        assert(seg_total(kept) == 1) by {
            assert(kept.len() == 1);
            assert(kept[0].len() == 0);
            assert(kept.skip(1).len() == 0);
            assert(seg_total(kept.skip(1)) == 0);
        }
        assert(segs.skip(1).len() >= 1);
        assert(seg_total(segs.skip(1)) == segs.skip(1)[0].len() + 1 + seg_total(
            segs.skip(1).skip(1),
        ));
        assert(seg_total(kept) <= seg_total(segs.skip(1)));
    } else {
        assert(seg_total(kept) <= seg_total(segs.skip(1)));
    }
    lemma_join_split(n);
    lemma_join_len(segs);
    lemma_seg_total_concat(seq![seg0], segs.skip(1));
    assert(seq![seg0] + segs.skip(1) =~~= segs);
    assert(c.len() <= n.len());
    // fixpoint
    assert forall|i: int| 0 <= i < l.len() implies forall|j: int|
        0 <= j < (#[trigger] l[i]).len() ==> #[trigger] l[i][j] != '\\' by {
        assert(sep_free(l[i]));
        assert(forall|j: int| 0 <= j < l[i].len() ==> !is_sep(#[trigger] l[i][j]));
    }
    lemma_split_join(l);
    assert(split_at_bs(c) == l);
    assert(split_at_bs(c)[0] == seg0);
    assert(split_at_bs(c).skip(1) =~~= kept);
    assert(forall|i: int| 0 <= i < kept.len() ==> plain_seg(#[trigger] kept[i]));
    lemma_resolve_plain_id(kept, Seq::empty());
    assert(Seq::<Seq<char>>::empty() + kept =~~= kept);
    assert(resolve_onto(split_at_bs(c).skip(1), Seq::empty()) == kept);
    // the second pass keeps the same segments: when `kept` is empty the
    // input had a single segment, so the root-keeping rule stays off
    assert(kept.len() == 0 ==> split_at_bs(c).len() == 1);
    assert(dots_resolved(c) == join_bs(seq![seg0] + kept));
}

} // verus!
