//! Rooted path joining.
//!
//! A relative path is split on `/`, normalized segment by segment (empty
//! segments and `.` vanish, `..` pops), and appended to a root.  A path whose
//! `..` segments would climb above the root is rejected, so a successful join
//! always stays inside the root.

use vstd::prelude::*;

use crate::strutil::push_char;

verus! {

/// Split on `/`, with `cur` the segment under construction.
pub open spec fn split_slash_acc(s: Seq<char>, cur: Seq<char>) -> Seq<Seq<char>>
    decreases s.len(),
{
    if s.len() == 0 {
        seq![cur]
    } else if s[0] == '/' {
        seq![cur] + split_slash_acc(s.drop_first(), Seq::empty())
    } else {
        split_slash_acc(s.drop_first(), cur.push(s[0]))
    }
}

/// The `/`-separated segments of `s`.  An empty string has one empty
/// segment.
pub open spec fn split_slash(s: Seq<char>) -> Seq<Seq<char>> {
    split_slash_acc(s, Seq::empty())
}

/// Does a segment stand for a real path component?  Empty segments and `.`
/// do not move, `..` climbs.
pub open spec fn is_trivial_segment(s: Seq<char>) -> bool {
    s == Seq::<char>::empty() || s == seq!['.']
}

/// The climbing segment `..`.
pub open spec fn is_parent_segment(s: Seq<char>) -> bool {
    s == seq!['.', '.']
}

/// Normalize `segs` onto the stack `acc`; `None` when `..` would pop an
/// empty stack.
pub open spec fn normalize_segments(segs: Seq<Seq<char>>, acc: Seq<Seq<char>>) -> Option<
    Seq<Seq<char>>,
>
    decreases segs.len(),
{
    if segs.len() == 0 {
        Some(acc)
    } else if is_trivial_segment(segs[0]) {
        normalize_segments(segs.drop_first(), acc)
    } else if is_parent_segment(segs[0]) {
        if acc.len() == 0 {
            None
        } else {
            normalize_segments(segs.drop_first(), acc.drop_last())
        }
    } else {
        normalize_segments(segs.drop_first(), acc.push(segs[0]))
    }
}

/// `root/seg0/seg1/...`.
pub open spec fn joined(root: Seq<char>, segs: Seq<Seq<char>>) -> Seq<char>
    decreases segs.len(),
{
    if segs.len() == 0 {
        root
    } else {
        joined(root + seq!['/'] + segs[0], segs.drop_first())
    }
}

/// Join `rel` onto `root`: the canonical path, or `None` when `rel` escapes
/// the root.
pub open spec fn rooted_join(root: Seq<char>, rel: Seq<char>) -> Option<Seq<char>> {
    match normalize_segments(split_slash(rel), Seq::empty()) {
        None => None,
        Some(segs) => Some(joined(root, segs)),
    }
}

/// How many segments climb.
pub open spec fn parent_count(segs: Seq<Seq<char>>) -> nat
    decreases segs.len(),
{
    if segs.len() == 0 {
        0
    } else {
        (if is_parent_segment(segs[0]) {
            1nat
        } else {
            0nat
        }) + parent_count(segs.drop_first())
    }
}

/// How many segments descend.
pub open spec fn normal_count(segs: Seq<Seq<char>>) -> nat
    decreases segs.len(),
{
    if segs.len() == 0 {
        0
    } else {
        (if !is_trivial_segment(segs[0]) && !is_parent_segment(segs[0]) {
            1nat
        } else {
            0nat
        }) + normal_count(segs.drop_first())
    }
}

/// Do the segments at some point climb higher than they have descended?
pub open spec fn escapes(segs: Seq<Seq<char>>) -> bool {
    exists|k: int|
        0 <= k <= segs.len() && parent_count(segs.take(k)) > normal_count(segs.take(k))
}

/// Normalization fails exactly when the segments climb out of the given
/// stack.
proof fn lemma_normalize_none_iff(segs: Seq<Seq<char>>, acc: Seq<Seq<char>>)
    ensures
        normalize_segments(segs, acc) is None <==> (exists|k: int|
            0 <= k <= segs.len() && parent_count(segs.take(k)) > normal_count(segs.take(k))
                + acc.len()),
    decreases segs.len(),
{
    if segs.len() == 0 {
        assert forall|k: int| 0 <= k <= segs.len() implies !(parent_count(segs.take(k))
            > normal_count(segs.take(k)) + acc.len()) by {
            assert(segs.take(k) =~= Seq::<Seq<char>>::empty());
        }
    } else {
        let rest = segs.drop_first();
        assert forall|k: int| 1 <= k <= segs.len() implies segs.take(k).drop_first() =~= rest.take(
            k - 1,
        ) by {}
        assert forall|k: int| 1 <= k <= segs.len() implies parent_count(segs.take(k))
            == (if is_parent_segment(segs[0]) {
            1nat
        } else {
            0nat
        }) + parent_count(rest.take(k - 1)) && normal_count(segs.take(k)) == (if !is_trivial_segment(
            segs[0],
        ) && !is_parent_segment(segs[0]) {
            1nat
        } else {
            0nat
        }) + normal_count(rest.take(k - 1)) by {
            assert(segs.take(k)[0] == segs[0]);
            assert(segs.take(k).len() > 0);
        }
        assert(segs.take(0) =~= Seq::<Seq<char>>::empty());
        if is_trivial_segment(segs[0]) {
            lemma_normalize_none_iff(rest, acc);
            assert forall|k: int|
                0 <= k <= rest.len() && parent_count(rest.take(k)) > normal_count(rest.take(k))
                    + acc.len() implies (exists|k2: int|
                0 <= k2 <= segs.len() && parent_count(segs.take(k2)) > normal_count(segs.take(k2))
                    + acc.len()) by {
                assert(parent_count(segs.take(k + 1)) > normal_count(segs.take(k + 1)) + acc.len());
            }
            assert forall|k2: int|
                0 <= k2 <= segs.len() && parent_count(segs.take(k2)) > normal_count(segs.take(k2))
                    + acc.len() implies (exists|k: int|
                0 <= k <= rest.len() && parent_count(rest.take(k)) > normal_count(rest.take(k))
                    + acc.len()) by {
                assert(k2 >= 1);
                assert(segs.take(k2).len() > 0);
                assert(segs.take(k2)[0] == segs[0]);
                assert(segs.take(k2).drop_first() =~= rest.take(k2 - 1));
                assert(parent_count(rest.take(k2 - 1)) > normal_count(rest.take(k2 - 1))
                    + acc.len());
            }
        } else if is_parent_segment(segs[0]) {
            if acc.len() == 0 {
                assert(parent_count(segs.take(1)) > normal_count(segs.take(1)) + acc.len()) by {
                    assert(segs.take(1).drop_first() =~= rest.take(0));
                    assert(rest.take(0) =~= Seq::<Seq<char>>::empty());
                }
            } else {
                lemma_normalize_none_iff(rest, acc.drop_last());
                assert forall|k: int|
                    0 <= k <= rest.len() && parent_count(rest.take(k)) > normal_count(rest.take(k))
                        + (acc.len() - 1) implies (exists|k2: int|
                    0 <= k2 <= segs.len() && parent_count(segs.take(k2)) > normal_count(
                        segs.take(k2),
                    ) + acc.len()) by {
                    assert(parent_count(segs.take(k + 1)) > normal_count(segs.take(k + 1))
                        + acc.len());
                }
                assert forall|k2: int|
                    0 <= k2 <= segs.len() && parent_count(segs.take(k2)) > normal_count(
                        segs.take(k2),
                    ) + acc.len() implies (exists|k: int|
                    0 <= k <= rest.len() && parent_count(rest.take(k)) > normal_count(rest.take(k))
                        + (acc.len() - 1)) by {
                    assert(k2 >= 1);
                    assert(parent_count(rest.take(k2 - 1)) > normal_count(rest.take(k2 - 1)) + (
                    acc.len() - 1));
                }
            }
        } else {
            lemma_normalize_none_iff(rest, acc.push(segs[0]));
            assert forall|k: int|
                0 <= k <= rest.len() && parent_count(rest.take(k)) > normal_count(rest.take(k))
                    + (acc.len() + 1) implies (exists|k2: int|
                0 <= k2 <= segs.len() && parent_count(segs.take(k2)) > normal_count(segs.take(k2))
                    + acc.len()) by {
                assert(parent_count(segs.take(k + 1)) > normal_count(segs.take(k + 1)) + acc.len());
            }
            assert forall|k2: int|
                0 <= k2 <= segs.len() && parent_count(segs.take(k2)) > normal_count(segs.take(k2))
                    + acc.len() implies (exists|k: int|
                0 <= k <= rest.len() && parent_count(rest.take(k)) > normal_count(rest.take(k))
                    + (acc.len() + 1)) by {
                assert(k2 >= 1);
                assert(parent_count(rest.take(k2 - 1)) > normal_count(rest.take(k2 - 1)) + (
                acc.len() + 1));
            }
        }
    }
}

/// A relative path joins onto a root exactly when its segments never climb
/// out of it: enough `..` segments always fail, and nothing else fails.
pub proof fn lemma_rooted_join_escape(root: Seq<char>, rel: Seq<char>)
    ensures
        rooted_join(root, rel) is None <==> escapes(split_slash(rel)),
{
    lemma_normalize_none_iff(split_slash(rel), Seq::empty());
}

/// A successful join never leaves the root: the root is a prefix of the
/// result.
pub proof fn lemma_joined_keeps_root(root: Seq<char>, segs: Seq<Seq<char>>)
    ensures
        root.is_prefix_of(joined(root, segs)),
    decreases segs.len(),
{
    if segs.len() > 0 {
        let step = root + seq!['/'] + segs[0];
        lemma_joined_keeps_root(step, segs.drop_first());
        let j = joined(step, segs.drop_first());
        assert(step.is_prefix_of(j));
        assert(root.is_prefix_of(step)) by {
            assert(step.subrange(0, root.len() as int) =~= root);
        }
        assert(j.subrange(0, root.len() as int) =~= step.subrange(0, root.len() as int)) by {
            assert(step.subrange(0, step.len() as int) =~= step);
            assert forall|i: int| 0 <= i < root.len() implies j[i] == step[i] by {
                assert(step.subrange(0, step.len() as int)[i] == j.subrange(
                    0,
                    step.len() as int,
                )[i]);
            }
        }
    }
}

/// A successful rooted join stays inside the root.
pub proof fn lemma_rooted_join_within(root: Seq<char>, rel: Seq<char>)
    ensures
        rooted_join(root, rel) is Some ==> root.is_prefix_of(rooted_join(root, rel).unwrap()),
{
    if rooted_join(root, rel) is Some {
        let segs = normalize_segments(split_slash(rel), Seq::empty()).unwrap();
        lemma_joined_keeps_root(root, segs);
    }
}

/// The `/`-separated segments of `s`, as executable code.
pub fn split_segments(s: &str) -> (r: Vec<String>)
    ensures
        r.deep_view() == split_slash(s@),
{
    let n = s.unicode_len();
    let mut out: Vec<String> = Vec::new();
    let mut cur = String::new();
    let mut i: usize = 0;
    proof {
        assert(s@.skip(0) =~= s@);
        assert(out.deep_view() =~= Seq::<Seq<char>>::empty());
        assert(Seq::<Seq<char>>::empty() + split_slash_acc(s@, cur@) =~= split_slash_acc(s@, cur@));
    }
    while i < n
        invariant
            n == s@.len(),
            0 <= i <= n,
            out.deep_view() + split_slash_acc(s@.skip(i as int), cur@) == split_slash(s@),
        decreases n - i,
    {
        let c = s.get_char(i);
        let ghost pre = s@.skip(i as int);
        proof {
            assert(pre[0] == s@[i as int]);
            assert(pre.drop_first() =~= s@.skip(i + 1));
        }
        if c == '/' {
            let ghost old_out = out.deep_view();
            let ghost old_cur = cur@;
            out.push(cur);
            cur = String::new();
            proof {
                assert(split_slash_acc(pre, old_cur) == seq![old_cur] + split_slash_acc(
                    s@.skip(i + 1),
                    Seq::empty(),
                ));
                assert(out.deep_view() =~= old_out + seq![old_cur]);
                assert(out.deep_view() + split_slash_acc(s@.skip(i + 1), cur@) =~= (old_out
                    + seq![old_cur]) + split_slash_acc(s@.skip(i + 1), Seq::empty()));
                assert((old_out + seq![old_cur]) + split_slash_acc(s@.skip(i + 1), Seq::empty())
                    =~= old_out + (seq![old_cur] + split_slash_acc(s@.skip(i + 1), Seq::empty())));
            }
        } else {
            proof {
                assert(split_slash_acc(pre, cur@) == split_slash_acc(
                    s@.skip(i + 1),
                    cur@.push(s@[i as int]),
                ));
            }
            push_char(&mut cur, c);
        }
        i = i + 1;
    }
    proof {
        assert(s@.skip(n as int) =~= Seq::<char>::empty());
        assert(split_slash_acc(s@.skip(n as int), cur@) == seq![cur@]);
    }
    let ghost old_out = out.deep_view();
    let ghost last = cur@;
    out.push(cur);
    proof {
        assert(out.deep_view() =~= old_out + seq![last]);
    }
    out
}

/// Is the segment empty or `.`?
fn segment_is_trivial(s: &str) -> (r: bool)
    ensures
        r == is_trivial_segment(s@),
{
    let n = s.unicode_len();
    if n == 0 {
        proof {
            assert(s@ =~= Seq::<char>::empty());
        }
        true
    } else if n == 1 && s.get_char(0) == '.' {
        proof {
            assert(s@ =~= seq!['.']);
        }
        true
    } else {
        proof {
            assert(s@ != Seq::<char>::empty());
            if s@ == seq!['.'] {
                assert(s@[0] == '.');
            }
        }
        false
    }
}

/// Is the segment `..`?
fn segment_is_parent(s: &str) -> (r: bool)
    ensures
        r == is_parent_segment(s@),
{
    let n = s.unicode_len();
    if n == 2 && s.get_char(0) == '.' && s.get_char(1) == '.' {
        proof {
            assert(s@ =~= seq!['.', '.']);
        }
        true
    } else {
        proof {
            if s@ == seq!['.', '.'] {
                assert(s@[0] == '.' && s@[1] == '.');
            }
        }
        false
    }
}

/// Join `rel` onto `root`, or `None` when `rel` escapes the root.
pub fn join_rooted(root: &str, rel: &str) -> (r: Option<String>)
    ensures
        match r {
            Some(p) => rooted_join(root@, rel@) == Some(p@),
            None => rooted_join(root@, rel@) is None,
        },
{
    let segs = split_segments(rel);
    let ghost all = split_slash(rel@);
    let mut stack: Vec<String> = Vec::new();
    let mut i: usize = 0;
    proof {
        assert(all.skip(0) =~= all);
        assert(stack.deep_view() =~= Seq::<Seq<char>>::empty());
    }
    while i < segs.len()
        invariant
            all == split_slash(rel@),
            segs.deep_view() == all,
            0 <= i <= segs@.len(),
            segs@.len() == all.len(),
            normalize_segments(all.skip(i as int), stack.deep_view()) == normalize_segments(
                all,
                Seq::<Seq<char>>::empty(),
            ),
        decreases segs@.len() - i,
    {
        let ghost pre = all.skip(i as int);
        proof {
            assert(pre[0] == all[i as int]);
            assert(all[i as int] == segs@[i as int]@);
            assert(pre.drop_first() =~= all.skip(i + 1));
        }
        let seg = &segs[i];
        if segment_is_trivial(seg.as_str()) {
        } else if segment_is_parent(seg.as_str()) {
            if stack.len() == 0 {
                proof {
                    assert(stack.deep_view() =~= Seq::<Seq<char>>::empty());
                    assert(normalize_segments(pre, stack.deep_view()) is None);
                    assert(normalize_segments(all, Seq::<Seq<char>>::empty()) is None);
                    assert(normalize_segments(split_slash(rel@), Seq::<Seq<char>>::empty())
                        is None);
                    assert(rooted_join(root@, rel@) is None);
                }
                return None;
            }
            let ghost old_stack = stack.deep_view();
            stack.pop();
            proof {
                assert(stack.deep_view() =~= old_stack.drop_last());
            }
        } else {
            let ghost old_stack = stack.deep_view();
            stack.push(seg.clone());
            proof {
                assert(stack.deep_view() =~= old_stack.push(all[i as int]));
            }
        }
        i = i + 1;
    }
    proof {
        assert(all.skip(all.len() as int) =~= Seq::<Seq<char>>::empty());
        assert(normalize_segments(all, Seq::<Seq<char>>::empty()) == Some(stack.deep_view()));
    }
    let mut out = root.to_owned();
    let ghost norm = stack.deep_view();
    let mut j: usize = 0;
    proof {
        assert(norm.skip(0) =~= norm);
    }
    while j < stack.len()
        invariant
            stack.deep_view() == norm,
            0 <= j <= stack@.len(),
            stack@.len() == norm.len(),
            joined(out@, norm.skip(j as int)) == joined(root@, norm),
        decreases stack@.len() - j,
    {
        let ghost pre = norm.skip(j as int);
        let ghost old_out = out@;
        proof {
            assert(pre[0] == norm[j as int]);
            assert(norm[j as int] == stack@[j as int]@);
            assert(pre.drop_first() =~= norm.skip(j + 1));
        }
        push_char(&mut out, '/');
        out.append(stack[j].as_str());
        proof {
            assert(out@ =~= old_out + seq!['/'] + norm[j as int]);
            assert(joined(out@, norm.skip(j + 1)) == joined(old_out, pre));
        }
        j = j + 1;
    }
    proof {
        assert(norm.skip(norm.len() as int) =~= Seq::<Seq<char>>::empty());
    }
    Some(out)
}

} // verus!
