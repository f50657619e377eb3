//! Position-list selection and single-separator splitting, as sequence
//! functions shared by the three extraction modes.

use vstd::prelude::*;

verus! {

/// The subsequence of `s` picked out by `pos`, in the order the positions are
/// listed; a position at or past the end of `s` is skipped. Repeated
/// positions pick the same element repeatedly.
pub open spec fn selected<T>(s: Seq<T>, pos: Seq<usize>) -> Seq<T>
    decreases pos.len(),
{
    if pos.len() == 0 {
        Seq::empty()
    } else {
        let init = selected(s, pos.drop_last());
        if (pos.last() as int) < s.len() {
            init.push(s[pos.last() as int])
        } else {
            init
        }
    }
}

/// Selection looks only at the prefix of the position list: what the first
/// `k` positions pick is independent of the rest.
pub proof fn lemma_selected_take_step<T>(s: Seq<T>, pos: Seq<usize>, k: int)
    requires
        0 <= k < pos.len(),
    ensures
        selected(s, pos.take(k + 1)) == if (pos[k] as int) < s.len() {
            selected(s, pos.take(k)).push(s[pos[k] as int])
        } else {
            selected(s, pos.take(k))
        },
{
    assert(pos.take(k + 1).drop_last() =~= pos.take(k));
    assert(pos.take(k + 1).last() == pos[k]);
}

/// `s` split at every occurrence of `sep`, the separators themselves
/// dropped. The result always has one more part than `s` has separators, so
/// it is never empty; an empty `s` splits into one empty part.
pub open spec fn split_on<T>(s: Seq<T>, sep: T) -> Seq<Seq<T>>
    decreases s.len(),
{
    if s.len() == 0 {
        seq![Seq::<T>::empty()]
    } else if s[0] == sep {
        seq![Seq::<T>::empty()] + split_on(s.drop_first(), sep)
    } else {
        let rest = split_on(s.drop_first(), sep);
        seq![seq![s[0]] + rest[0]] + rest.drop_first()
    }
}

/// The parts of `parts` concatenated with `sep` between consecutive parts.
pub open spec fn join_with<T>(parts: Seq<Seq<T>>, sep: T) -> Seq<T>
    decreases parts.len(),
{
    if parts.len() == 0 {
        Seq::empty()
    } else if parts.len() == 1 {
        parts[0]
    } else {
        parts[0] + seq![sep] + join_with(parts.drop_first(), sep)
    }
}

/// A split always yields at least one part.
pub proof fn lemma_split_on_nonempty<T>(s: Seq<T>, sep: T)
    ensures
        split_on(s, sep).len() >= 1,
    decreases s.len(),
{
    if s.len() > 0 {
        lemma_split_on_nonempty(s.drop_first(), sep);
    }
}

/// A sequence free of the separator splits into itself alone.
pub proof fn lemma_split_on_no_sep<T>(s: Seq<T>, sep: T)
    requires
        forall|j: int| 0 <= j < s.len() ==> s[j] != sep,
    ensures
        split_on(s, sep) == seq![s],
    decreases s.len(),
{
    if s.len() == 0 {
        assert(s =~= Seq::<T>::empty());
    } else {
        lemma_split_on_no_sep(s.drop_first(), sep);
        let rest = split_on(s.drop_first(), sep);
        assert(rest.drop_first() =~= Seq::<Seq<T>>::empty());
        assert(seq![s[0]] + rest[0] =~= s);
        assert(seq![seq![s[0]] + rest[0]] + rest.drop_first() =~= seq![s]);
    }
}

/// If the first separator of `s` stands at `k`, the split is `s`'s first `k`
/// elements followed by the split of everything after that separator.
pub proof fn lemma_split_on_head_sep<T>(s: Seq<T>, sep: T, k: int)
    requires
        0 <= k < s.len(),
        s[k] == sep,
        forall|j: int| 0 <= j < k ==> s[j] != sep,
    ensures
        split_on(s, sep) == seq![s.take(k)] + split_on(s.skip(k + 1), sep),
    decreases k,
{
    if k == 0 {
        assert(s.take(0) =~= Seq::<T>::empty());
        assert(s.skip(1) =~= s.drop_first());
    } else {
        let t = s.drop_first();
        lemma_split_on_head_sep(t, sep, k - 1);
        let rest = split_on(t, sep);
        assert(rest[0] == t.take(k - 1));
        assert(rest.drop_first() =~= split_on(t.skip(k), sep));
        assert(seq![s[0]] + t.take(k - 1) =~= s.take(k));
        assert(t.skip(k) =~= s.skip(k + 1));
        assert(seq![seq![s[0]] + rest[0]] + rest.drop_first() =~= seq![s.take(k)] + split_on(
            s.skip(k + 1),
            sep,
        ));
    }
}

/// Joining after appending one more part appends that part after one more
/// separator (or is that part alone, when nothing was there before).
pub proof fn lemma_join_with_push<T>(parts: Seq<Seq<T>>, p: Seq<T>, sep: T)
    ensures
        join_with(parts.push(p), sep) == if parts.len() == 0 {
            p
        } else {
            join_with(parts, sep) + seq![sep] + p
        },
    decreases parts.len(),
{
    if parts.len() == 0 {
        assert(parts.push(p)[0] == p);
        assert(join_with(parts.push(p), sep) == p);
    } else if parts.len() == 1 {
        assert(parts.push(p)[0] == parts[0]);
        assert(parts.push(p).drop_first() =~= seq![p]);
        assert(join_with(seq![p], sep) == p);
        assert(join_with(parts.push(p), sep) == parts[0] + seq![sep] + p);
        assert(join_with(parts, sep) == parts[0]);
    } else {
        lemma_join_with_push(parts.drop_first(), p, sep);
        assert(parts.push(p)[0] == parts[0]);
        assert(parts.push(p).drop_first() =~= parts.drop_first().push(p));
        assert(parts[0] + seq![sep] + (join_with(parts.drop_first(), sep) + seq![sep] + p) =~= (
        parts[0] + seq![sep] + join_with(parts.drop_first(), sep)) + seq![sep] + p);
    }
}

/// Splitting and re-joining with the same separator gives the sequence back.
pub proof fn lemma_join_split_on<T>(s: Seq<T>, sep: T)
    ensures
        join_with(split_on(s, sep), sep) == s,
    decreases s.len(),
{
    if s.len() == 0 {
        assert(join_with(seq![Seq::<T>::empty()], sep) =~= s);
    } else if s[0] == sep {
        lemma_join_split_on(s.drop_first(), sep);
        lemma_split_on_nonempty(s.drop_first(), sep);
        let rest = split_on(s.drop_first(), sep);
        let whole = seq![Seq::<T>::empty()] + rest;
        assert(whole[0] =~= Seq::<T>::empty());
        assert(whole.drop_first() =~= rest);
        assert(Seq::<T>::empty() + seq![sep] + join_with(rest, sep) =~= s);
    } else {
        lemma_join_split_on(s.drop_first(), sep);
        lemma_split_on_nonempty(s.drop_first(), sep);
        let rest = split_on(s.drop_first(), sep);
        let whole = seq![seq![s[0]] + rest[0]] + rest.drop_first();
        if rest.len() == 1 {
            assert(join_with(rest, sep) == rest[0]);
            assert(seq![s[0]] + rest[0] =~= s);
            assert(join_with(whole, sep) == whole[0]);
        } else {
            assert(whole.drop_first() =~= rest.drop_first());
            assert(whole[0] == seq![s[0]] + rest[0]);
            assert((seq![s[0]] + rest[0]) + seq![sep] + join_with(rest.drop_first(), sep) =~= seq![
                s[0],
            ] + (rest[0] + seq![sep] + join_with(rest.drop_first(), sep)));
            assert(seq![s[0]] + s.drop_first() =~= s);
        }
    }
}

} // verus!
