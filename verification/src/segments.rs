use crate::action_serialization::ACTION_DIVIDER;
use crate::action_set::views_of;
use vstd::prelude::*;

verus! {

/// The segments of an action identifier: the identifier cut at every
/// divider. Always at least one segment; segments never contain the
/// divider; an empty identifier has the single empty segment.
pub open spec fn split_on_divider(s: Seq<char>) -> Seq<Seq<char>>
    decreases s.len(),
{
    if s.len() == 0 {
        seq![Seq::<char>::empty()]
    } else if s[0] == ACTION_DIVIDER {
        seq![Seq::<char>::empty()] + split_on_divider(s.drop_first())
    } else {
        let rest = split_on_divider(s.drop_first());
        seq![seq![s[0]] + rest[0]] + rest.drop_first()
    }
}

/// The segments put back together, divider between neighbours.
pub open spec fn join_segments(segs: Seq<Seq<char>>) -> Seq<char>
    decreases segs.len(),
{
    if segs.len() == 0 {
        Seq::<char>::empty()
    } else if segs.len() == 1 {
        segs[0]
    } else {
        segs[0] + seq![ACTION_DIVIDER] + join_segments(segs.drop_first())
    }
}

/// Splitting always yields at least one segment.
pub proof fn lemma_split_nonempty(s: Seq<char>)
    ensures
        split_on_divider(s).len() >= 1,
    decreases s.len(),
{
    if s.len() != 0 {
        lemma_split_nonempty(s.drop_first());
    }
}

/// Joining the segments of an identifier gives the identifier back.
pub proof fn lemma_join_of_split(s: Seq<char>)
    ensures
        join_segments(split_on_divider(s)) == s,
    decreases s.len(),
{
    if s.len() == 0 {
        assert(join_segments(split_on_divider(s)) =~= s);
    } else {
        let tail = s.drop_first();
        lemma_join_of_split(tail);
        lemma_split_nonempty(tail);
        let rest = split_on_divider(tail);
        if s[0] == ACTION_DIVIDER {
            let whole = seq![Seq::<char>::empty()] + rest;
            assert(whole.drop_first() =~= rest);
            assert(whole[0] == Seq::<char>::empty());
            assert(whole.len() >= 2);
            assert(join_segments(whole) == whole[0] + seq![ACTION_DIVIDER] + join_segments(rest));
            assert(whole[0] + seq![ACTION_DIVIDER] + join_segments(rest) =~= s);
        } else {
            let head = seq![seq![s[0]] + rest[0]];
            let whole = head + rest.drop_first();
            assert(whole[0] == seq![s[0]] + rest[0]);
            if rest.len() == 1 {
                assert(whole.len() == 1);
                assert(join_segments(rest) == rest[0]);
                assert(join_segments(whole) == seq![s[0]] + rest[0]);
                assert(seq![s[0]] + rest[0] =~= s);
            } else {
                assert(whole.drop_first() =~= rest.drop_first());
                assert(whole.len() >= 2);
                assert(join_segments(whole) == whole[0] + seq![ACTION_DIVIDER] + join_segments(
                    rest.drop_first(),
                ));
                assert(join_segments(rest) == rest[0] + seq![ACTION_DIVIDER] + join_segments(
                    rest.drop_first(),
                ));
                assert(whole[0] + seq![ACTION_DIVIDER] + join_segments(rest.drop_first()) =~= seq![
                    s[0],
                ] + join_segments(rest));
                assert(seq![s[0]] + tail =~= s);
            }
        }
    }
}

/// The running state of a left-to-right scan: segments already emitted,
/// the partial segment under construction, and what splitting the unread
/// remainder will still contribute.
pub open spec fn split_state(
    done: Seq<Seq<char>>,
    part: Seq<char>,
    rest: Seq<char>,
) -> Seq<Seq<char>> {
    let rs = split_on_divider(rest);
    done + seq![part + rs[0]] + rs.drop_first()
}

/// Cuts an action identifier at every divider. The resulting segments,
/// joined again, give the identifier back.
pub fn split_action(action: &str) -> (r: Vec<String>)
    ensures
        views_of(r@) == split_on_divider(action@),
{
    let n = action.unicode_len();
    let mut segs: Vec<String> = Vec::new();
    let mut start: usize = 0;
    let mut i: usize = 0;
    proof {
        lemma_split_nonempty(action@);
        assert(action@.skip(0) =~= action@);
        assert(action@.subrange(0, 0) =~= Seq::<char>::empty());
        assert(views_of(segs@) =~= Seq::<Seq<char>>::empty());
        let rs = split_on_divider(action@);
        assert(split_state(views_of(segs@), Seq::<char>::empty(), action@) =~= rs);
    }
    while i < n
        invariant
            0 <= start <= i <= n,
            n == action@.len(),
            split_state(
                views_of(segs@),
                action@.subrange(start as int, i as int),
                action@.skip(i as int),
            ) == split_on_divider(action@),
        decreases n - i,
    {
        let ghost done = views_of(segs@);
        let ghost part = action@.subrange(start as int, i as int);
        let ghost rem = action@.skip(i as int);
        proof {
            assert(rem[0] == action@[i as int]);
            assert(rem.drop_first() =~= action@.skip(i as int + 1));
            lemma_split_nonempty(action@.skip(i as int + 1));
        }
        let c = action.get_char(i);
        if c == ACTION_DIVIDER {
            let seg = action.substring_char(start, i);
            segs.push(seg.to_owned());
            start = i + 1;
            proof {
                let rs2 = split_on_divider(action@.skip(i as int + 1));
                assert(split_on_divider(rem) == seq![Seq::<char>::empty()] + rs2);
                assert((seq![Seq::<char>::empty()] + rs2).drop_first() =~= rs2);
                assert((seq![Seq::<char>::empty()] + rs2)[0] == Seq::<char>::empty());
                assert(views_of(segs@) =~= done + seq![part]);
                assert(action@.subrange(i as int + 1, i as int + 1) =~= Seq::<char>::empty());
                assert(split_state(done + seq![part], Seq::<char>::empty(), action@.skip(
                    i as int + 1,
                )) =~= split_state(done, part, rem));
            }
        } else {
            proof {
                let rs2 = split_on_divider(action@.skip(i as int + 1));
                assert(split_on_divider(rem) == seq![seq![rem[0]] + rs2[0]] + rs2.drop_first());
                assert((seq![seq![rem[0]] + rs2[0]] + rs2.drop_first()).drop_first()
                    =~= rs2.drop_first());
                assert((seq![seq![rem[0]] + rs2[0]] + rs2.drop_first())[0] == seq![rem[0]]
                    + rs2[0]);
                assert(action@.subrange(start as int, i as int + 1) =~= part + seq![
                    action@[i as int],
                ]);
                assert(part + (seq![rem[0]] + rs2[0]) =~= (part + seq![action@[i as int]])
                    + rs2[0]);
                assert(split_state(done, action@.subrange(start as int, i as int + 1), action@.skip(
                    i as int + 1,
                )) =~= split_state(done, part, rem));
            }
        }
        i += 1;
    }
    let last = action.substring_char(start, n);
    segs.push(last.to_owned());
    proof {
        let ghost part = action@.subrange(start as int, n as int);
        assert(action@.skip(n as int) =~= Seq::<char>::empty());
        let rs = split_on_divider(action@.skip(n as int));
        assert(rs == seq![Seq::<char>::empty()]);
        assert(rs.drop_first() =~= Seq::<Seq<char>>::empty());
        assert(part + rs[0] =~= part);
        assert(views_of(segs@) =~= split_state(views_of(segs@).drop_last(), part, action@.skip(
            n as int,
        )));
        assert(views_of(segs@) =~= split_on_divider(action@));
    }
    segs
}

} // verus!
