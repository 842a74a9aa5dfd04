//! Optimizing keeps what a pattern matches: the optimized pattern matches the subject from a
//! position up to another exactly if the pattern does.

use crate::language::{
    cut, kind_matches, lemma_matches_bounds, matches_times, pattern_matches, repetition_matches,
    sequence_matches, taken, times,
};
use crate::matcher::MatcherKind;
use crate::optimize::{
    alternatives, alternatives_of, concat_chars, flatten, flush, fuse, optimized,
    optimized_children,
};
use crate::repr::{PatternView, RepetitionView};
use vstd::prelude::*;

verus! {

/// The patterns match the subject from `from` up to `to`, one after the other.
pub open spec fn all_match(ps: Seq<PatternView>, s: Seq<char>, from: nat, to: nat) -> bool {
    sequence_matches(ps, ps.len(), s, from, to)
}

/// What the first patterns of a sequence match does not depend on the patterns after them.
proof fn lemma_sequence_prefix(
    xs: Seq<PatternView>,
    ys: Seq<PatternView>,
    n: nat,
    s: Seq<char>,
    from: nat,
    to: nat,
)
    requires
        n <= xs.len(),
    ensures
        sequence_matches(xs + ys, n, s, from, to) == sequence_matches(xs, n, s, from, to),
    decreases n,
{
    let both = xs + ys;
    if n > 0 {
        assert(both[n - 1] == xs[n - 1]);
        if sequence_matches(both, n, s, from, to) {
            let mid = choose|mid: nat|
                #[trigger] cut(mid) && sequence_matches(both, (n - 1) as nat, s, from, mid)
                    && pattern_matches(both[n - 1], s, mid, to);
            lemma_sequence_prefix(xs, ys, (n - 1) as nat, s, from, mid);
            assert(cut(mid) && sequence_matches(xs, (n - 1) as nat, s, from, mid)
                && pattern_matches(xs[n - 1], s, mid, to));
        }
        if sequence_matches(xs, n, s, from, to) {
            let mid = choose|mid: nat|
                #[trigger] cut(mid) && sequence_matches(xs, (n - 1) as nat, s, from, mid)
                    && pattern_matches(xs[n - 1], s, mid, to);
            lemma_sequence_prefix(xs, ys, (n - 1) as nat, s, from, mid);
            assert(cut(mid) && sequence_matches(both, (n - 1) as nat, s, from, mid)
                && pattern_matches(both[n - 1], s, mid, to));
        }
    }
}

/// Two sequences one after the other match what the first matches and then the second.
proof fn lemma_sequence_join(
    xs: Seq<PatternView>,
    ys: Seq<PatternView>,
    k: nat,
    s: Seq<char>,
    from: nat,
    mid: nat,
    to: nat,
)
    requires
        k <= ys.len(),
        all_match(xs, s, from, mid),
        sequence_matches(ys, k, s, mid, to),
    ensures
        sequence_matches(xs + ys, xs.len() + k, s, from, to),
    decreases k,
{
    let both = xs + ys;
    if k == 0 {
        lemma_sequence_prefix(xs, ys, xs.len(), s, from, to);
    } else {
        let last = choose|last: nat|
            #[trigger] cut(last) && sequence_matches(ys, (k - 1) as nat, s, mid, last)
                && pattern_matches(ys[k - 1], s, last, to);
        lemma_sequence_join(xs, ys, (k - 1) as nat, s, from, mid, last);
        assert(both[xs.len() + k - 1] == ys[k - 1]);
        assert(cut(last) && sequence_matches(both, (xs.len() + k - 1) as nat, s, from, last)
            && pattern_matches(both[xs.len() + k - 1], s, last, to));
    }
}

/// What two sequences one after the other match is split between them.
proof fn lemma_sequence_split(
    xs: Seq<PatternView>,
    ys: Seq<PatternView>,
    k: nat,
    s: Seq<char>,
    from: nat,
    to: nat,
) -> (mid: nat)
    requires
        k <= ys.len(),
        sequence_matches(xs + ys, xs.len() + k, s, from, to),
    ensures
        all_match(xs, s, from, mid),
        sequence_matches(ys, k, s, mid, to),
    decreases k,
{
    let both = xs + ys;
    if k == 0 {
        lemma_sequence_prefix(xs, ys, xs.len(), s, from, to);
        lemma_sequence_bounds(xs, xs.len(), s, from, to);
        to
    } else {
        let last = choose|last: nat|
            #[trigger] cut(last) && sequence_matches(both, (xs.len() + k - 1) as nat, s, from, last)
                && pattern_matches(both[xs.len() + k - 1], s, last, to);
        let mid = lemma_sequence_split(xs, ys, (k - 1) as nat, s, from, last);
        assert(both[xs.len() + k - 1] == ys[k - 1]);
        assert(cut(last) && sequence_matches(ys, (k - 1) as nat, s, mid, last) && pattern_matches(
            ys[k - 1],
            s,
            last,
            to,
        ));
        mid
    }
}

/// What a sequence matches lies within the subject and does not end before it begins.
pub proof fn lemma_sequence_bounds(
    ps: Seq<PatternView>,
    n: nat,
    s: Seq<char>,
    from: nat,
    to: nat,
)
    requires
        sequence_matches(ps, n, s, from, to),
    ensures
        from <= to <= s.len(),
    decreases n,
{
    if n == 0 || n > ps.len() {
    } else {
        let mid = choose|mid: nat|
            #[trigger] cut(mid) && sequence_matches(ps, (n - 1) as nat, s, from, mid)
                && pattern_matches(ps[n - 1], s, mid, to);
        lemma_sequence_bounds(ps, (n - 1) as nat, s, from, mid);
        lemma_matches_bounds(ps[n - 1], s, mid, to);
    }
}

/// A sequence of one pattern matches what the pattern matches.
proof fn lemma_sequence_one(x: PatternView, s: Seq<char>, from: nat, to: nat)
    ensures
        all_match(seq![x], s, from, to) == pattern_matches(x, s, from, to),
{
    let one = seq![x];
    if all_match(one, s, from, to) {
        let mid = choose|mid: nat|
            #[trigger] cut(mid) && sequence_matches(one, 0, s, from, mid) && pattern_matches(
                one[0],
                s,
                mid,
                to,
            );
        assert(mid == from);
    }
    if pattern_matches(x, s, from, to) {
        lemma_matches_bounds(x, s, from, to);
        assert(cut(from) && sequence_matches(one, 0, s, from, from) && pattern_matches(
            one[0],
            s,
            from,
            to,
        ));
    }
}

/// A sequence matches what its first pattern matches and then the others.
proof fn lemma_head_join(ps: Seq<PatternView>, s: Seq<char>, from: nat, mid: nat, to: nat)
    requires
        ps.len() >= 1,
        pattern_matches(ps[0], s, from, mid),
        all_match(ps.skip(1), s, mid, to),
    ensures
        all_match(ps, s, from, to),
{
    let rest = ps.skip(1);
    lemma_sequence_one(ps[0], s, from, mid);
    lemma_sequence_join(seq![ps[0]], rest, rest.len(), s, from, mid, to);
    assert(seq![ps[0]] + rest =~= ps);
}

/// What a sequence matches is split between its first pattern and the others.
proof fn lemma_head_split(ps: Seq<PatternView>, s: Seq<char>, from: nat, to: nat) -> (mid: nat)
    requires
        ps.len() >= 1,
        all_match(ps, s, from, to),
    ensures
        pattern_matches(ps[0], s, from, mid),
        all_match(ps.skip(1), s, mid, to),
{
    let rest = ps.skip(1);
    assert(seq![ps[0]] + rest =~= ps);
    let mid = lemma_sequence_split(seq![ps[0]], rest, rest.len(), s, from, to);
    lemma_sequence_one(ps[0], s, from, mid);
    mid
}

/// The `n` characters of the subject from the position `from` on.
pub open spec fn piece(s: Seq<char>, from: nat, n: nat) -> Seq<char> {
    s.subrange(from as int, (from + n) as int)
}

/// The characters `run` stand in the subject at the position `from`.
pub open spec fn str_at(run: Seq<char>, s: Seq<char>, from: nat) -> bool {
    from + run.len() <= s.len() && piece(s, from, run.len()) == run
}

/// The string matcher matches where the characters stand.
proof fn lemma_str_matches(run: Seq<char>, s: Seq<char>, from: nat, to: nat)
    ensures
        kind_matches(MatcherKind::Str(run), s, from, to) == (str_at(run, s, from) && to == from
            + run.len()),
{
}

/// A run with one more character stands where the run stands and the character after it.
proof fn lemma_str_push(run: Seq<char>, c: char, s: Seq<char>, from: nat)
    ensures
        str_at(run.push(c), s, from) == (str_at(run, s, from) && kind_matches(
            MatcherKind::Char(c),
            s,
            from + run.len(),
            from + run.len() + 1,
        )),
{
    let longer = run.push(c);
    if str_at(longer, s, from) {
        let part = piece(s, from, longer.len());
        assert(part[run.len() as int] == longer[run.len() as int]);
        assert(piece(s, from, run.len()) =~= run) by {
            assert forall|i: int| 0 <= i < run.len() implies piece(s, from, run.len())[i] == run[i] by {
                assert(part[i] == longer[i]);
            }
        }
    }
    if str_at(run, s, from) && kind_matches(
        MatcherKind::Char(c),
        s,
        from + run.len(),
        from + run.len() + 1,
    ) {
        let part = piece(s, from, run.len());
        assert(piece(s, from, longer.len()) =~= longer) by {
            assert forall|i: int| 0 <= i < longer.len() implies piece(s, from, longer.len())[i] == longer[i] by {
                if i < run.len() {
                    assert(part[i] == run[i]);
                }
            }
        }
    }
}

/// Two runs one after the other stand where the first stands and the second after it.
proof fn lemma_str_add(run: Seq<char>, more: Seq<char>, s: Seq<char>, from: nat)
    ensures
        str_at(run + more, s, from) == (str_at(run, s, from) && str_at(
            more,
            s,
            from + run.len(),
        )),
{
    let longer = run + more;
    if str_at(longer, s, from) {
        let part = piece(s, from, longer.len());
        assert(piece(s, from, run.len()) =~= run) by {
            assert forall|i: int| 0 <= i < run.len() implies piece(s, from, run.len())[i] == run[i] by {
                assert(part[i] == longer[i]);
            }
        }
        assert(piece(s, (from + run.len()) as nat, more.len()) =~= more) by {
            assert forall|i: int| 0 <= i < more.len() implies piece(s, (from + run.len()) as nat, more.len())[i] == more[i] by {
                assert(part[run.len() + i] == longer[run.len() + i]);
            }
        }
    }
    if str_at(run, s, from) && str_at(more, s, from + run.len()) {
        let first = piece(s, from, run.len());
        let second = piece(s, (from + run.len()) as nat, more.len());
        assert(piece(s, from, longer.len()) =~= longer) by {
            assert forall|i: int| 0 <= i < longer.len() implies piece(s, from, longer.len())[i] == longer[i] by {
                if i < run.len() {
                    assert(first[i] == run[i]);
                } else {
                    assert(second[i - run.len()] == more[i - run.len()]);
                }
            }
        }
    }
}

/// The pattern of a run of one character matches where the character stands.
proof fn lemma_flush_one_matches(c: char, s: Seq<char>, from: nat, to: nat)
    ensures
        all_match(flush(seq![c]), s, from, to) == (str_at(seq![c], s, from) && to == from + 1),
{
    lemma_sequence_one(PatternView::Char(c), s, from, to);
    assert(flush(seq![c]) == seq![PatternView::Char(c)]);
    lemma_str_push(Seq::empty(), c, s, from);
    assert(Seq::<char>::empty().push(c) =~= seq![c]);
    if from <= s.len() {
        assert(piece(s, from, 0) =~= Seq::<char>::empty());
    }
}

/// The pattern of a run of characters matches where the characters stand.
proof fn lemma_flush_matches(run: Seq<char>, s: Seq<char>, from: nat, to: nat)
    ensures
        all_match(flush(run), s, from, to) == (str_at(run, s, from) && to == from + run.len()),
{
    if run.len() == 0 {
        if from <= s.len() {
            assert(piece(s, from, 0) =~= Seq::<char>::empty());
        }
        assert(run =~= Seq::<char>::empty());
    } else if run.len() == 1 {
        lemma_flush_one_matches(run[0], s, from, to);
        assert(seq![run[0]] =~= run);
    } else {
        lemma_sequence_one(PatternView::Str(run), s, from, to);
        lemma_str_matches(run, s, from, to);
    }
}

/// A merged sequence matches what the run before it and then the sequence match.
proof fn lemma_fuse_matches(
    ps: Seq<PatternView>,
    run: Seq<char>,
    s: Seq<char>,
    from: nat,
    to: nat,
)
    ensures
        all_match(fuse(ps, run), s, from, to) == (str_at(run, s, from) && all_match(
            ps,
            s,
            from + run.len(),
            to,
        )),
    decreases ps.len(),
{
    let start = from + run.len();
    if ps.len() == 0 {
        lemma_flush_matches(run, s, from, to);
    } else {
        let rest = ps.skip(1);
        match ps[0] {
            PatternView::Char(c) => {
                lemma_fuse_matches(rest, run.push(c), s, from, to);
                lemma_str_push(run, c, s, from);
                if all_match(ps, s, start, to) {
                    let mid = lemma_head_split(ps, s, start, to);
                }
                if str_at(run.push(c), s, from) && all_match(rest, s, start + 1, to) {
                    lemma_head_join(ps, s, start, start + 1, to);
                }
            },
            PatternView::Str(chars) => {
                lemma_fuse_matches(rest, run + chars, s, from, to);
                lemma_str_add(run, chars, s, from);
                lemma_str_matches(chars, s, start, start + chars.len());
                if all_match(ps, s, start, to) {
                    let mid = lemma_head_split(ps, s, start, to);
                    lemma_str_matches(chars, s, start, mid);
                }
                if str_at(run + chars, s, from) && all_match(rest, s, start + chars.len(), to) {
                    lemma_head_join(ps, s, start, start + chars.len(), to);
                }
            },
            other => {
                let head = flush(run);
                let tail = fuse(rest, Seq::empty());
                let merged = fuse(ps, run);
                assert(merged == head + seq![other] + tail);
                assert(head + seq![other] + tail =~= head + (seq![other] + tail));
                let after = seq![other] + tail;
                if all_match(merged, s, from, to) {
                    let m1 = lemma_sequence_split(head, after, after.len(), s, from, to);
                    lemma_flush_matches(run, s, from, m1);
                    let m2 = lemma_head_split(after, s, m1, to);
                    assert(after.skip(1) =~= tail);
                    lemma_fuse_matches(rest, Seq::empty(), s, m2, to);
                    lemma_head_join(ps, s, start, m2, to);
                }
                if str_at(run, s, from) && all_match(ps, s, start, to) {
                    let m2 = lemma_head_split(ps, s, start, to);
                    lemma_fuse_matches(rest, Seq::empty(), s, m2, to);
                    lemma_sequence_bounds(rest, rest.len(), s, m2, to);
                    assert(piece(s, m2, 0) =~= Seq::<char>::empty());
                    assert(after.skip(1) =~= tail);
                    lemma_head_join(after, s, start, m2, to);
                    lemma_flush_matches(run, s, from, start);
                    lemma_sequence_join(head, after, after.len(), s, from, start, to);
                }
            },
        }
    }
}

/// One of the patterns matches the subject from `from` up to `to`.
pub open spec fn any_matches(qs: Seq<PatternView>, s: Seq<char>, from: nat, to: nat) -> bool {
    exists|j: int| #[trigger] taken(j) && 0 <= j < qs.len() && pattern_matches(qs[j], s, from, to)
}

/// One of the patterns of two lists matches where one of the first or one of the second does.
proof fn lemma_any_add(
    xs: Seq<PatternView>,
    ys: Seq<PatternView>,
    s: Seq<char>,
    from: nat,
    to: nat,
)
    ensures
        any_matches(xs + ys, s, from, to) == (any_matches(xs, s, from, to) || any_matches(
            ys,
            s,
            from,
            to,
        )),
{
    let both = xs + ys;
    if any_matches(both, s, from, to) {
        let j = choose|j: int|
            #[trigger] taken(j) && 0 <= j < both.len() && pattern_matches(both[j], s, from, to);
        if j < xs.len() {
            assert(taken(j) && pattern_matches(xs[j], s, from, to));
        } else {
            assert(taken(j - xs.len()) && pattern_matches(ys[j - xs.len()], s, from, to));
        }
    }
    if any_matches(xs, s, from, to) {
        let j = choose|j: int|
            #[trigger] taken(j) && 0 <= j < xs.len() && pattern_matches(xs[j], s, from, to);
        assert(taken(j) && pattern_matches(both[j], s, from, to));
    }
    if any_matches(ys, s, from, to) {
        let j = choose|j: int|
            #[trigger] taken(j) && 0 <= j < ys.len() && pattern_matches(ys[j], s, from, to);
        assert(taken(xs.len() + j) && pattern_matches(both[xs.len() + j], s, from, to));
    }
}

/// One of the alternatives that a pattern offers matches where the pattern matches.
proof fn lemma_alternatives_match(p: PatternView, s: Seq<char>, from: nat, to: nat)
    ensures
        any_matches(alternatives(p), s, from, to) == pattern_matches(p, s, from, to),
    decreases p, 0nat,
{
    match p {
        PatternView::Alternate(ps) => {
            lemma_alternatives_of_match(ps, ps.len(), s, from, to);
            if pattern_matches(p, s, from, to) {
                let i = choose|i: int|
                    #[trigger] taken(i) && 0 <= i < ps.len() && pattern_matches(
                        ps[i],
                        s,
                        from,
                        to,
                    );
                assert(taken(i) && 0 <= i < ps.len() && pattern_matches(ps[i], s, from, to));
            }
            if first_matches(ps, ps.len(), s, from, to) {
                let i = choose|i: int|
                    #[trigger] taken(i) && 0 <= i < ps.len() && pattern_matches(
                        ps[i],
                        s,
                        from,
                        to,
                    );
                assert(taken(i) && 0 <= i < ps.len() && pattern_matches(ps[i], s, from, to));
            }
        },
        _ => {
            let only = alternatives(p);
            assert(only == seq![p]);
            if any_matches(only, s, from, to) {
                let j = choose|j: int|
                    #[trigger] taken(j) && 0 <= j < only.len() && pattern_matches(
                        only[j],
                        s,
                        from,
                        to,
                    );
                assert(only[j] == p);
            }
            if pattern_matches(p, s, from, to) {
                assert(taken(0) && pattern_matches(only[0], s, from, to));
            }
        },
    }
}

/// One of the first `n` patterns matches the subject from `from` up to `to`.
pub open spec fn first_matches(ps: Seq<PatternView>, n: nat, s: Seq<char>, from: nat, to: nat)
    -> bool {
    exists|i: int| #[trigger] taken(i) && 0 <= i < n && pattern_matches(ps[i], s, from, to)
}

proof fn lemma_alternatives_of_match(
    ps: Seq<PatternView>,
    n: nat,
    s: Seq<char>,
    from: nat,
    to: nat,
)
    requires
        n <= ps.len(),
    ensures
        any_matches(alternatives_of(ps, n), s, from, to) == first_matches(ps, n, s, from, to),
    decreases ps, n,
{
    if n == 0 {
        if any_matches(alternatives_of(ps, n), s, from, to) {
            let j = choose|j: int|
                #[trigger] taken(j) && 0 <= j < alternatives_of(ps, n).len() && pattern_matches(
                    alternatives_of(ps, n)[j],
                    s,
                    from,
                    to,
                );
        }
    } else {
        let before = alternatives_of(ps, (n - 1) as nat);
        let added = alternatives(ps[n - 1]);
        lemma_alternatives_of_match(ps, (n - 1) as nat, s, from, to);
        lemma_alternatives_match(ps[n - 1], s, from, to);
        lemma_any_add(before, added, s, from, to);
        if first_matches(ps, n, s, from, to) {
            let i = choose|i: int|
                #[trigger] taken(i) && 0 <= i < n && pattern_matches(ps[i], s, from, to);
            if i < n - 1 {
                assert(taken(i) && 0 <= i < n - 1 && pattern_matches(ps[i], s, from, to));
            }
        }
        if first_matches(ps, (n - 1) as nat, s, from, to) {
            let i = choose|i: int|
                #[trigger] taken(i) && 0 <= i < n - 1 && pattern_matches(ps[i], s, from, to);
            assert(taken(i) && 0 <= i < n && pattern_matches(ps[i], s, from, to));
        }
        if pattern_matches(ps[n - 1], s, from, to) {
            assert(taken(n - 1) && 0 <= n - 1 < n && pattern_matches(ps[n - 1], s, from, to));
        }
    }
}

/// Flattening keeps what a pattern matches.
proof fn lemma_flatten_matches(p: PatternView, s: Seq<char>, from: nat, to: nat)
    ensures
        pattern_matches(flatten(p), s, from, to) == pattern_matches(p, s, from, to),
{
    let all = alternatives(p);
    lemma_alternatives_match(p, s, from, to);
    if all.len() == 1 {
        if any_matches(all, s, from, to) {
            let j = choose|j: int|
                #[trigger] taken(j) && 0 <= j < all.len() && pattern_matches(all[j], s, from, to);
        }
        if pattern_matches(all[0], s, from, to) {
            assert(taken(0) && pattern_matches(all[0], s, from, to));
        }
    } else {
        let flat = PatternView::Alternate(all);
        if pattern_matches(flat, s, from, to) {
            let i = choose|i: int|
                #[trigger] taken(i) && 0 <= i < all.len() && pattern_matches(all[i], s, from, to);
            assert(taken(i) && 0 <= i < all.len() && pattern_matches(all[i], s, from, to));
        }
        if any_matches(all, s, from, to) {
            let i = choose|i: int|
                #[trigger] taken(i) && 0 <= i < all.len() && pattern_matches(all[i], s, from, to);
            assert(taken(i) && 0 <= i < all.len() && pattern_matches(all[i], s, from, to));
        }
    }
}

/// Merging characters and strings keeps what a pattern matches.
proof fn lemma_concat_chars_matches(p: PatternView, s: Seq<char>, from: nat, to: nat)
    ensures
        pattern_matches(concat_chars(p), s, from, to) == pattern_matches(p, s, from, to),
{
    match p {
        PatternView::Concat(cs) => {
            let fused = fuse(cs, Seq::empty());
            lemma_fuse_matches(cs, Seq::empty(), s, from, to);
            if all_match(cs, s, from, to) {
                lemma_sequence_bounds(cs, cs.len(), s, from, to);
                assert(piece(s, from, 0) =~= Seq::<char>::empty());
            }
            assert(all_match(fused, s, from, to) == all_match(cs, s, from, to));
            if fused.len() == 1 {
                lemma_sequence_one(fused[0], s, from, to);
                assert(seq![fused[0]] =~= fused);
            }
        },
        _ => {},
    }
}

/// Optimizing keeps what a pattern matches.
pub proof fn optimize_keeps_matches(p: PatternView, s: Seq<char>, from: nat, to: nat)
    ensures
        pattern_matches(optimized(p), s, from, to) == pattern_matches(p, s, from, to),
    decreases p, 0nat,
{
    let oc = optimized_children(p);
    lemma_flatten_matches(concat_chars(oc), s, from, to);
    lemma_concat_chars_matches(oc, s, from, to);
    match p {
        PatternView::Concat(ps) => {
            lemma_children_sequence(ps, ps.len(), s, from, to);
        },
        PatternView::Alternate(ps) => {
            let cs = oc->Alternate_0;
            if pattern_matches(oc, s, from, to) {
                let i = choose|i: int|
                    #[trigger] taken(i) && 0 <= i < cs.len() && pattern_matches(
                        cs[i],
                        s,
                        from,
                        to,
                    );
                optimize_keeps_matches(ps[i], s, from, to);
                assert(taken(i) && 0 <= i < ps.len() && pattern_matches(ps[i], s, from, to));
            }
            if pattern_matches(p, s, from, to) {
                let i = choose|i: int|
                    #[trigger] taken(i) && 0 <= i < ps.len() && pattern_matches(
                        ps[i],
                        s,
                        from,
                        to,
                    );
                optimize_keeps_matches(ps[i], s, from, to);
                assert(taken(i) && 0 <= i < cs.len() && pattern_matches(cs[i], s, from, to));
            }
        },
        PatternView::Submatch(q) => {
            optimize_keeps_matches(*q, s, from, to);
        },
        PatternView::Repeated(r) => {
            lemma_children_repetition(*r, s, from, to);
        },
        _ => {},
    }
}

/// The sequence of the optimized patterns.
pub open spec fn optimized_all(ps: Seq<PatternView>) -> Seq<PatternView> {
    Seq::new(ps.len(), |i: int| optimized(ps[i]))
}

proof fn lemma_children_sequence(ps: Seq<PatternView>, n: nat, s: Seq<char>, from: nat, to: nat)
    requires
        n <= ps.len(),
    ensures
        sequence_matches(optimized_all(ps), n, s, from, to) == sequence_matches(ps, n, s, from, to),
        optimized_children(PatternView::Concat(ps)) == PatternView::Concat(optimized_all(ps)),
    decreases ps, n,
{
    let cs = optimized_all(ps);
    assert(optimized_children(PatternView::Concat(ps))->Concat_0 =~= cs);
    if n > 0 {
        if sequence_matches(cs, n, s, from, to) {
            let mid = choose|mid: nat|
                #[trigger] cut(mid) && sequence_matches(cs, (n - 1) as nat, s, from, mid)
                    && pattern_matches(cs[n - 1], s, mid, to);
            lemma_children_sequence(ps, (n - 1) as nat, s, from, mid);
            optimize_keeps_matches(ps[n - 1], s, mid, to);
            assert(cut(mid) && sequence_matches(ps, (n - 1) as nat, s, from, mid)
                && pattern_matches(ps[n - 1], s, mid, to));
        }
        if sequence_matches(ps, n, s, from, to) {
            let mid = choose|mid: nat|
                #[trigger] cut(mid) && sequence_matches(ps, (n - 1) as nat, s, from, mid)
                    && pattern_matches(ps[n - 1], s, mid, to);
            lemma_children_sequence(ps, (n - 1) as nat, s, from, mid);
            optimize_keeps_matches(ps[n - 1], s, mid, to);
            assert(cut(mid) && sequence_matches(cs, (n - 1) as nat, s, from, mid)
                && pattern_matches(cs[n - 1], s, mid, to));
        }
    }
}

proof fn lemma_children_times(q: PatternView, k: nat, s: Seq<char>, from: nat, to: nat)
    ensures
        matches_times(optimized(q), k, s, from, to) == matches_times(q, k, s, from, to),
    decreases q, k + 1,
{
    let o = optimized(q);
    if k > 0 {
        if matches_times(o, k, s, from, to) {
            let mid = choose|mid: nat|
                #[trigger] cut(mid) && matches_times(o, (k - 1) as nat, s, from, mid)
                    && pattern_matches(o, s, mid, to);
            lemma_children_times(q, (k - 1) as nat, s, from, mid);
            optimize_keeps_matches(q, s, mid, to);
            assert(cut(mid) && matches_times(q, (k - 1) as nat, s, from, mid) && pattern_matches(
                q,
                s,
                mid,
                to,
            ));
        }
        if matches_times(q, k, s, from, to) {
            let mid = choose|mid: nat|
                #[trigger] cut(mid) && matches_times(q, (k - 1) as nat, s, from, mid)
                    && pattern_matches(q, s, mid, to);
            lemma_children_times(q, (k - 1) as nat, s, from, mid);
            optimize_keeps_matches(q, s, mid, to);
            assert(cut(mid) && matches_times(o, (k - 1) as nat, s, from, mid) && pattern_matches(
                o,
                s,
                mid,
                to,
            ));
        }
    }
}

proof fn lemma_children_repetition(r: RepetitionView, s: Seq<char>, from: nat, to: nat)
    ensures
        pattern_matches(optimized_children(PatternView::Repeated(Box::new(r))), s, from, to)
            == repetition_matches(r, s, from, to),
    decreases r, 0nat,
{
    let oc = optimized_children(PatternView::Repeated(Box::new(r)));
    match r {
        RepetitionView::ZeroOrOnce(q) => {
            let o = RepetitionView::ZeroOrOnce(optimized(q));
            optimize_keeps_matches(q, s, from, to);
            assert(oc == PatternView::Repeated(Box::new(o)));
            assert(repetition_matches(o, s, from, to) == repetition_matches(r, s, from, to));
        },
        RepetitionView::ZeroOrMore(q) => {
            let o = RepetitionView::ZeroOrMore(optimized(q));
            assert(oc == PatternView::Repeated(Box::new(o)));
            if repetition_matches(o, s, from, to) {
                let k = choose|k: nat|
                    #[trigger] times(k) && matches_times(optimized(q), k, s, from, to);
                lemma_children_times(q, k, s, from, to);
                assert(times(k) && matches_times(q, k, s, from, to));
            }
            if repetition_matches(r, s, from, to) {
                let k = choose|k: nat| #[trigger] times(k) && matches_times(q, k, s, from, to);
                lemma_children_times(q, k, s, from, to);
                assert(times(k) && matches_times(optimized(q), k, s, from, to));
            }
        },
        RepetitionView::OnceOrMore(q) => {
            let o = RepetitionView::OnceOrMore(optimized(q));
            assert(oc == PatternView::Repeated(Box::new(o)));
            if repetition_matches(o, s, from, to) {
                let k = choose|k: nat|
                    #[trigger] times(k) && k >= 1 && matches_times(optimized(q), k, s, from, to);
                lemma_children_times(q, k, s, from, to);
                assert(times(k) && k >= 1 && matches_times(q, k, s, from, to));
            }
            if repetition_matches(r, s, from, to) {
                let k = choose|k: nat|
                    #[trigger] times(k) && k >= 1 && matches_times(q, k, s, from, to);
                lemma_children_times(q, k, s, from, to);
                assert(times(k) && k >= 1 && matches_times(optimized(q), k, s, from, to));
            }
        },
        RepetitionView::Specific(q, min, max) => {
            let o = RepetitionView::Specific(optimized(q), min, max);
            assert(oc == PatternView::Repeated(Box::new(o)));
            if repetition_matches(o, s, from, to) {
                let k = choose|k: nat|
                    #[trigger] times(k) && min <= k && (max is Some ==> k <= max->0)
                        && matches_times(optimized(q), k, s, from, to);
                lemma_children_times(q, k, s, from, to);
                assert(times(k) && min <= k && (max is Some ==> k <= max->0) && matches_times(
                    q,
                    k,
                    s,
                    from,
                    to,
                ));
            }
            if repetition_matches(r, s, from, to) {
                let k = choose|k: nat|
                    #[trigger] times(k) && min <= k && (max is Some ==> k <= max->0)
                        && matches_times(q, k, s, from, to);
                lemma_children_times(q, k, s, from, to);
                assert(times(k) && min <= k && (max is Some ==> k <= max->0) && matches_times(
                    optimized(q),
                    k,
                    s,
                    from,
                    to,
                ));
            }
        },
    }
}

} // verus!
