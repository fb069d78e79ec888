use vstd::prelude::*;

verus! {

// An item paired with the answer that the predicate gave for it.

/// The items of a flagged sequence, without their flags.
pub open spec fn items<T>(z: Seq<(T, bool)>) -> Seq<T> {
    z.map_values(|p: (T, bool)| p.0)
}

/// Pairs each item with the flag at the same position.
pub open spec fn flagged<T>(xs: Seq<T>, flags: Seq<bool>) -> Seq<(T, bool)> {
    Seq::new(xs.len(), |i: int| (xs[i], flags[i]))
}

/// Length of the longest prefix of `z` whose flags all equal `b`.
pub open spec fn run_len<T>(z: Seq<(T, bool)>, b: bool) -> nat
    decreases z.len(),
{
    if z.len() > 0 && z[0].1 == b {
        1 + run_len(z.drop_first(), b)
    } else {
        0
    }
}

pub proof fn lemma_run_len<T>(z: Seq<(T, bool)>, b: bool)
    ensures
        run_len(z, b) <= z.len(),
        forall|i: int| 0 <= i < run_len(z, b) ==> #[trigger] z[i].1 == b,
        run_len(z, b) < z.len() ==> z[run_len(z, b) as int].1 != b,
    decreases z.len(),
{
    if z.len() > 0 && z[0].1 == b {
        let r = z.drop_first();
        lemma_run_len(r, b);
        assert forall|i: int| 0 <= i < run_len(z, b) implies #[trigger] z[i].1 == b by {
            if i > 0 {
                assert(z[i] == r[i - 1]);
            }
        }
    }
}

/// Splits a flagged sequence into its maximal alternating runs: each pair
/// holds a run of items flagged `false`, then the run flagged `true` that
/// follows it. Only the first pair may have an empty first part, and only
/// the last pair an empty second part.
pub open spec fn toggle_pairs<T>(z: Seq<(T, bool)>) -> Seq<(Seq<T>, Seq<T>)>
    decreases z.len(),
{
    if z.len() == 0 {
        seq![]
    } else {
        let f = run_len(z, false);
        let t = run_len(z.skip(f as int), true);
        let k = f + t;
        proof {
            lemma_run_len(z, false);
            lemma_run_len(z.skip(f as int), true);
            if f == 0 {
                assert(z.skip(0) =~= z);
            }
        }
        seq![(items(z.take(f as int)), items(z.subrange(f as int, k as int)))] + toggle_pairs(
            z.skip(k as int),
        )
    }
}


proof fn lemma_run_len_push<T>(z: Seq<(T, bool)>, b: bool, e: (T, bool))
    ensures
        run_len(z, b) < z.len() ==> run_len(z.push(e), b) == run_len(z, b),
        run_len(z, b) == z.len() ==> run_len(z.push(e), b) == z.len() + (if e.1 == b {
            1nat
        } else {
            0nat
        }),
    decreases z.len(),
{
    lemma_run_len(z, b);
    if z.len() == 0 {
        assert(z.push(e).drop_first() =~= Seq::<(T, bool)>::empty());
        assert(z.push(e)[0] == e);
        assert(run_len(z.push(e).drop_first(), b) == 0);
    } else {
        assert(z.push(e).drop_first() =~= z.drop_first().push(e));
        lemma_run_len_push(z.drop_first(), b, e);
    }
}

/// Extending the items by one element changes the alternating runs only at
/// their end: a `true` item joins the last run, a `false` item joins the last
/// pair while it has no `true` run yet, and otherwise opens a new pair.
pub proof fn lemma_toggle_pairs_push<T>(z: Seq<(T, bool)>, e: (T, bool))
    ensures
        z.len() == 0 ==> toggle_pairs(z.push(e)) == seq![
            if e.1 {
                (Seq::<T>::empty(), seq![e.0])
            } else {
                (seq![e.0], Seq::<T>::empty())
            },
        ],
        z.len() > 0 ==> {
            let p = toggle_pairs(z);
            let q = toggle_pairs(z.push(e));
            let l = p.len() - 1;
            &&& p.len() > 0
            &&& p[l].0.len() + p[l].1.len() > 0
            &&& e.1 ==> q == p.update(l, (p[l].0, p[l].1.push(e.0)))
            &&& (!e.1 && p[l].1.len() == 0) ==> q == p.update(l, (p[l].0.push(e.0), p[l].1))
            &&& (!e.1 && p[l].1.len() > 0) ==> q == p.push((seq![e.0], Seq::<T>::empty()))
        },
    decreases z.len(),
{
    let ze = z.push(e);
    let f = run_len(z, false) as int;
    let t = run_len(z.skip(f), true) as int;
    let k = f + t;
    lemma_run_len(z, false);
    lemma_run_len(z.skip(f as int), true);
    lemma_run_len(ze, false);
    lemma_run_len_push(z, false, e);
    if z.len() == 0 {
        assert(ze[0] == e);
        assert(ze.drop_first() =~= Seq::<(T, bool)>::empty());
        assert(ze.skip(1) =~= Seq::<(T, bool)>::empty());
        assert(toggle_pairs(ze.skip(1)) == Seq::<(Seq<T>, Seq<T>)>::empty());
        if e.1 {
            assert(run_len(ze, false) == 0);
            assert(ze.skip(0) =~= ze);
            assert(run_len(ze.drop_first(), true) == 0);
            assert(run_len(ze, true) == 1);
            assert(items(ze.take(0)) =~= Seq::<T>::empty());
            assert(items(ze.subrange(0, 1)) =~= seq![e.0]);
            assert(toggle_pairs(ze) =~= seq![(items(ze.take(0)), items(ze.subrange(0, 1)))]);
        } else {
            assert(run_len(ze.drop_first(), false) == 0);
            assert(run_len(ze, false) == 1);
            assert(run_len(ze.skip(1), true) == 0);
            assert(items(ze.take(1)) =~= seq![e.0]);
            assert(items(ze.subrange(1, 1)) =~= Seq::<T>::empty());
            assert(toggle_pairs(ze) =~= seq![(items(ze.take(1)), items(ze.subrange(1, 1)))]);
        }
    } else {
        if f == 0 {
            assert(z.skip(0) =~= z);
        }
        assert(k >= 1);
        let p = toggle_pairs(z);
        let head = (items(z.take(f as int)), items(z.subrange(f as int, k as int)));
        assert(p == seq![head] + toggle_pairs(z.skip(k as int)));
        assert(ze.skip(f as int) =~= z.skip(f as int).push(e));
        lemma_run_len_push(z.skip(f as int), true, e);
        if k < z.len() {
            // The first pair ends inside `z`: it is unchanged, and the rest follows by induction.
            let rest = z.skip(k as int);
            assert(ze.skip(k as int) =~= rest.push(e));
            lemma_toggle_pairs_push(rest, e);
            assert(ze.take(f as int) =~= z.take(f as int));
            assert(ze.subrange(f as int, k as int) =~= z.subrange(f as int, k as int));
            let q = toggle_pairs(ze);
            assert(q == seq![head] + toggle_pairs(rest.push(e)));
            let pr = toggle_pairs(rest);
            let l = p.len() - 1;
            assert(p.len() == pr.len() + 1);
            assert(p[l] == pr[pr.len() - 1]);
            if e.1 {
                assert(q =~= p.update(l, (p[l].0, p[l].1.push(e.0))));
            } else if p[l].1.len() == 0 {
                assert(q =~= p.update(l, (p[l].0.push(e.0), p[l].1)));
            } else {
                assert(q =~= p.push((seq![e.0], Seq::<T>::empty())));
            }
        } else {
            // `z` is a single pair.
            assert(z.skip(k as int) =~= Seq::<(T, bool)>::empty());
            assert(p =~= seq![head]);
            let q = toggle_pairs(ze);
            if t > 0 {
                assert(f < z.len());
                let fe = run_len(ze, false);
                assert(fe == f);
                if e.1 {
                    let te = run_len(ze.skip(f as int), true);
                    assert(te == t + 1);
                    assert(ze.skip(k + 1) =~= Seq::<(T, bool)>::empty());
                    assert(ze.take(f as int) =~= z.take(f as int));
                    assert(items(ze.subrange(f as int, k + 1)) =~= items(
                        z.subrange(f as int, k as int),
                    ).push(e.0));
                    assert(q =~= seq![(head.0, head.1.push(e.0))]);
                } else {
                    let te = run_len(ze.skip(f as int), true);
                    assert(te == t);
                    assert(ze.skip(k as int) =~= seq![e]);
                    lemma_toggle_pairs_push(Seq::<(T, bool)>::empty(), e);
                    assert(Seq::<(T, bool)>::empty().push(e) =~= seq![e]);
                    assert(ze.take(f as int) =~= z.take(f as int));
                    assert(ze.subrange(f as int, k as int) =~= z.subrange(f as int, k as int));
                    assert(q =~= p.push((seq![e.0], Seq::<T>::empty())));
                }
            } else {
                assert(f == z.len());
                if e.1 {
                    let fe = run_len(ze, false);
                    assert(fe == f);
                    let te = run_len(ze.skip(f as int), true);
                    assert(ze.skip(f as int) =~= seq![e]);
                    assert(seq![e].drop_first() =~= Seq::<(T, bool)>::empty());
                    assert(te == 1);
                    assert(ze.skip(f + 1) =~= Seq::<(T, bool)>::empty());
                    assert(ze.take(f as int) =~= z.take(f as int));
                    assert(items(ze.subrange(f as int, f + 1)) =~= seq![e.0]);
                    assert(items(z.subrange(f as int, f as int)) =~= Seq::<T>::empty());
                    assert(q =~= seq![(head.0, head.1.push(e.0))]);
                } else {
                    let fe = run_len(ze, false);
                    assert(fe == f + 1);
                    let te = run_len(ze.skip(f + 1), true);
                    assert(ze.skip(f + 1) =~= Seq::<(T, bool)>::empty());
                    assert(te == 0);
                    assert(items(ze.take(f + 1)) =~= items(z.take(f as int)).push(e.0));
                    assert(items(ze.subrange(f + 1, f + 1)) =~= Seq::<T>::empty());
                    assert(items(z.subrange(f as int, f as int)) =~= Seq::<T>::empty());
                    assert(q =~= seq![(head.0.push(e.0), head.1)]);
                }
            }
        }
    }
}


/// The contents of a sequence of vector pairs.
pub open spec fn pairs_view<T>(ps: Seq<(Vec<T>, Vec<T>)>) -> Seq<(Seq<T>, Seq<T>)> {
    ps.map_values(|p: (Vec<T>, Vec<T>)| (p.0@, p.1@))
}

/// Applies `f` to each item and returns the maximal alternating runs as
/// pairs: a run of items for which `f` gave `false`, then the run for which
/// it gave `true` (see `toggle_pairs`).
pub fn partition_toggle_tuple<T, F: Fn(&T) -> bool>(v: Vec<T>, f: &F) -> (res: Vec<
    (Vec<T>, Vec<T>),
>)
    requires
        forall|x: &T| f.requires((x,)),
    ensures
        exists|flags: Seq<bool>|
            {
                &&& flags.len() == v@.len()
                &&& forall|i: int| 0 <= i < v@.len() ==> f.ensures((&v@[i],), #[trigger] flags[i])
                &&& pairs_view(res@) == toggle_pairs(flagged(v@, flags))
            },
{
    let ghost all = v@;
    let mut out: Vec<(Vec<T>, Vec<T>)> = Vec::new();
    let mut falses: Vec<T> = Vec::new();
    let mut trues: Vec<T> = Vec::new();
    let ghost mut flags: Seq<bool> = seq![];
    for x in it: v.into_iter()
        invariant
            forall|x: &T| f.requires((x,)),
            it.seq() == all,
            flags.len() == it.index(),
            forall|i: int| 0 <= i < it.index() ==> f.ensures((&all[i],), #[trigger] flags[i]),
            it.index() == 0 ==> out@.len() == 0 && falses@.len() == 0 && trues@.len() == 0,
            it.index() > 0 ==> pairs_view(out@).push((falses@, trues@)) == toggle_pairs(
                flagged(all.take(it.index() as int), flags),
            ),
    {
        let ghost i = it.index();
        let ghost z = flagged(all.take(i as int), flags);
        let r = f(&x);
        proof {
            lemma_toggle_pairs_push(z, (x, r));
            assert(flagged(all.take(i + 1), flags.push(r)) =~= z.push((x, r)));
        }
        if !r && trues.len() > 0 {
            out.push((falses, trues));
            falses = Vec::new();
            trues = Vec::new();
        }
        if r {
            trues.push(x);
        } else {
            falses.push(x);
        }
        proof {
            flags = flags.push(r);
            let q = toggle_pairs(flagged(all.take(i + 1), flags));
            if i > 0 {
                let p = toggle_pairs(z);
                assert(pairs_view(out@).push((falses@, trues@)) =~= q);
            } else {
                assert(z =~= Seq::<(T, bool)>::empty());
                assert(pairs_view(out@) =~= Seq::<(Seq<T>, Seq<T>)>::empty());
                assert(z.push((x, r)) =~= flagged(all.take(i + 1), flags));
                if r {
                    assert(falses@ =~= Seq::<T>::empty());
                    assert(trues@ =~= seq![x]);
                } else {
                    assert(falses@ =~= seq![x]);
                    assert(trues@ =~= Seq::<T>::empty());
                }
                assert(pairs_view(out@).push((falses@, trues@)) =~= q);
            }
        }
    }
    let ghost zall = flagged(all, flags);
    proof {
        assert(all.take(all.len() as int) =~= all);
        if all.len() > 0 {
            lemma_toggle_pairs_push(zall, zall[0]);
        }
    }
    if falses.len() > 0 || trues.len() > 0 {
        out.push((falses, trues));
    }
    proof {
        if all.len() == 0 {
            assert(pairs_view(out@) =~= toggle_pairs(zall));
        }
        assert(pairs_view(out@) == toggle_pairs(flagged(v@, flags)));
    }
    out
}


/// The groups of `partition_toggle`: the false run and the true run of every
/// pair, in order, leaving out only an empty true run at the very end.
pub open spec fn toggle_groups<T>(ps: Seq<(Seq<T>, Seq<T>)>) -> Seq<Seq<T>>
    decreases ps.len(),
{
    if ps.len() == 0 {
        seq![]
    } else if ps.len() == 1 && ps[0].1.len() == 0 {
        seq![ps[0].0]
    } else {
        seq![ps[0].0, ps[0].1] + toggle_groups(ps.drop_first())
    }
}

/// The contents of a vector of vectors.
pub open spec fn groups_view<T>(gs: Seq<Vec<T>>) -> Seq<Seq<T>> {
    gs.map_values(|g: Vec<T>| g@)
}

/// The runs for which the predicate gave `false`: the first part of every pair.
pub open spec fn false_runs<T>(ps: Seq<(Seq<T>, Seq<T>)>) -> Seq<Seq<T>> {
    ps.map_values(|p: (Seq<T>, Seq<T>)| p.0)
}

/// Applies `f` to each item and returns its maximal runs, alternating
/// between runs for which `f` gave `false` and runs for which it gave `true`,
/// starting with a `false` run (empty when the first item gives `true`).
pub fn partition_toggle<T, F: Fn(&T) -> bool>(v: Vec<T>, f: &F) -> (res: Vec<Vec<T>>)
    requires
        forall|x: &T| f.requires((x,)),
    ensures
        exists|flags: Seq<bool>|
            {
                &&& flags.len() == v@.len()
                &&& forall|i: int| 0 <= i < v@.len() ==> f.ensures((&v@[i],), #[trigger] flags[i])
                &&& groups_view(res@) == toggle_groups(toggle_pairs(flagged(v@, flags)))
            },
{
    let ghost vv = v@;
    let pairs = partition_toggle_tuple(v, f);
    let ghost flags = choose|flags: Seq<bool>|
        {
            &&& flags.len() == vv.len()
            &&& forall|i: int| 0 <= i < vv.len() ==> f.ensures((&vv[i],), #[trigger] flags[i])
            &&& pairs_view(pairs@) == toggle_pairs(flagged(vv, flags))
        };
    let ghost ps = pairs_view(pairs@);
    let n = pairs.len();
    let mut out: Vec<Vec<T>> = Vec::new();
    let mut idx: usize = 0;
    assert(ps.skip(0) =~= ps);
    assert(groups_view(out@) + toggle_groups(ps) =~= toggle_groups(ps));
    for p in it: pairs.into_iter()
        invariant
            n == ps.len(),
            idx == it.index(),
            it.seq() == pairs@,
            ps == pairs_view(it.seq()),
            toggle_groups(ps) == groups_view(out@) + toggle_groups(ps.skip(it.index() as int)),
    {
        let ghost i = it.index() as int;
        proof {
            assert(ps.skip(i)[0] == ps[i]);
            assert(ps.skip(i).drop_first() =~= ps.skip(i + 1));
        }
        let (falses, trues) = p;
        out.push(falses);
        if !(idx + 1 == n && trues.len() == 0) {
            out.push(trues);
            assert(groups_view(out@) =~= groups_view(out@.drop_last().drop_last()).push(ps[i].0).push(ps[i].1));
        }
        proof {
            assert(ps.skip(i + 1).len() == 0 ==> toggle_groups(ps.skip(i + 1)) == Seq::<Seq<T>>::empty());
            assert(toggle_groups(ps) =~= groups_view(out@) + toggle_groups(ps.skip(i + 1)));
        }
        idx = idx + 1;
    }
    proof {
        assert(ps.skip(n as int) =~= Seq::<(Seq<T>, Seq<T>)>::empty());
        assert(groups_view(out@) =~= toggle_groups(ps));
    }
    out
}

/// Applies `f` to each item and returns its maximal runs of items for which
/// `f` gave `false`: every other group of `partition_toggle`, starting at the
/// first.
pub fn split_partition<T, F: Fn(&T) -> bool>(v: Vec<T>, sep: &F) -> (res: Vec<Vec<T>>)
    requires
        forall|x: &T| sep.requires((x,)),
    ensures
        exists|flags: Seq<bool>|
            {
                &&& flags.len() == v@.len()
                &&& forall|i: int| 0 <= i < v@.len() ==> sep.ensures((&v@[i],), #[trigger] flags[i])
                &&& groups_view(res@) == false_runs(toggle_pairs(flagged(v@, flags)))
            },
{
    let ghost vv = v@;
    let pairs = partition_toggle_tuple(v, sep);
    let ghost flags = choose|flags: Seq<bool>|
        {
            &&& flags.len() == vv.len()
            &&& forall|i: int| 0 <= i < vv.len() ==> sep.ensures((&vv[i],), #[trigger] flags[i])
            &&& pairs_view(pairs@) == toggle_pairs(flagged(vv, flags))
        };
    let ghost ps = pairs_view(pairs@);
    let mut out: Vec<Vec<T>> = Vec::new();
    for p in it: pairs.into_iter()
        invariant
            it.seq() == pairs@,
            ps == pairs_view(it.seq()),
            groups_view(out@) == false_runs(ps.take(it.index() as int)),
    {
        let ghost i = it.index() as int;
        let (falses, _trues) = p;
        assert(ps[i].0 == falses@);
        let ghost before = groups_view(out@);
        out.push(falses);
        assert(groups_view(out@) =~= before.push(falses@));
        assert(false_runs(ps.take(i + 1)) =~= false_runs(ps.take(i)).push(ps[i].0));
    }
    assert(ps.take(ps.len() as int) =~= ps);
    out
}

/// The value held by either side of a `Result` whose two sides have one type.
pub fn result_unwrap<T>(r: Result<T, T>) -> (res: T)
    ensures
        res == match r {
            Ok(d) => d,
            Err(d) => d,
        },
{
    match r {
        Err(d) => d,
        Ok(d) => d,
    }
}


proof fn lemma_flatten_cons<A>(a: Seq<A>, r: Seq<Seq<A>>)
    ensures
        (seq![a] + r).flatten() == a + r.flatten(),
{
    assert((seq![a] + r).drop_first() =~= r);
    assert((seq![a] + r).first() == a);
}

/// The runs of one pair, laid end to end.
pub open spec fn joined_pairs<T>(ps: Seq<(Seq<T>, Seq<T>)>) -> Seq<T> {
    ps.map_values(|p: (Seq<T>, Seq<T>)| p.0 + p.1).flatten()
}

/// The flags that a sequence of pairs stands for: `false` for every item of
/// a false run, `true` for every item of a true run.
pub open spec fn pair_flags<T>(ps: Seq<(Seq<T>, Seq<T>)>) -> Seq<bool> {
    ps.map_values(
        |p: (Seq<T>, Seq<T>)| Seq::new(p.0.len(), |i: int| false) + Seq::new(p.1.len(), |i: int| true),
    ).flatten()
}

/// The flags of a flagged sequence.
pub open spec fn flags_of<T>(z: Seq<(T, bool)>) -> Seq<bool> {
    z.map_values(|p: (T, bool)| p.1)
}

/// Law: the alternating runs, laid end to end, give back the items.
pub proof fn lemma_toggle_pairs_concat<T>(z: Seq<(T, bool)>)
    ensures
        joined_pairs(toggle_pairs(z)) == items(z),
    decreases z.len(),
{
    if z.len() > 0 {
        let f = run_len(z, false) as int;
        let t = run_len(z.skip(f), true) as int;
        let k = f + t;
        lemma_run_len(z, false);
        lemma_run_len(z.skip(f), true);
        if f == 0 {
            assert(z.skip(0) =~= z);
        }
        let head = (items(z.take(f)), items(z.subrange(f, k)));
        let rest = toggle_pairs(z.skip(k));
        lemma_toggle_pairs_concat(z.skip(k));
        let g = |p: (Seq<T>, Seq<T>)| p.0 + p.1;
        assert((seq![head] + rest).map_values(g) =~= seq![g(head)] + rest.map_values(g));
        lemma_flatten_cons(g(head), rest.map_values(g));
        assert(items(z) =~= items(z.take(f)) + items(z.subrange(f, k)) + items(z.skip(k)));
    }
}

/// Law: the items of every false run are flagged `false` and those of every
/// true run are flagged `true`, in the order of the items.
pub proof fn lemma_toggle_pairs_flags<T>(z: Seq<(T, bool)>)
    ensures
        pair_flags(toggle_pairs(z)) == flags_of(z),
    decreases z.len(),
{
    if z.len() > 0 {
        let f = run_len(z, false) as int;
        let t = run_len(z.skip(f), true) as int;
        let k = f + t;
        lemma_run_len(z, false);
        lemma_run_len(z.skip(f), true);
        if f == 0 {
            assert(z.skip(0) =~= z);
        }
        let head = (items(z.take(f)), items(z.subrange(f, k)));
        let rest = toggle_pairs(z.skip(k));
        lemma_toggle_pairs_flags(z.skip(k));
        let g = |p: (Seq<T>, Seq<T>)|
            Seq::new(p.0.len(), |i: int| false) + Seq::new(p.1.len(), |i: int| true);
        assert((seq![head] + rest).map_values(g) =~= seq![g(head)] + rest.map_values(g));
        lemma_flatten_cons(g(head), rest.map_values(g));
        assert forall|i: int| 0 <= i < t implies #[trigger] z[f + i].1 == true by {
            assert(z.skip(f)[i] == z[f + i]);
        }
        assert(head.0.len() == f);
        assert(head.1.len() == t);
        let gh = g(head);
        assert(gh.len() == k);
        assert forall|i: int| 0 <= i < k implies #[trigger] gh[i] == z[i].1 by {
            if i >= f {
                assert(z[f + (i - f)].1 == true);
            }
        }
        assert(flags_of(z) =~= gh + flags_of(z.skip(k)));
    }
}

/// Law: the runs are maximal. Every pair after the first has a nonempty false
/// run, every pair before the last a nonempty true run, and there are pairs
/// exactly when there are items.
pub proof fn lemma_toggle_pairs_maximal<T>(z: Seq<(T, bool)>)
    ensures
        (toggle_pairs(z).len() == 0) == (z.len() == 0),
        forall|i: int|
            0 < i < toggle_pairs(z).len() ==> #[trigger] toggle_pairs(z)[i].0.len() > 0,
        forall|i: int|
            0 <= i < toggle_pairs(z).len() - 1 ==> #[trigger] toggle_pairs(z)[i].1.len() > 0,
    decreases z.len(),
{
    if z.len() > 0 {
        let f = run_len(z, false) as int;
        let t = run_len(z.skip(f), true) as int;
        let k = f + t;
        lemma_run_len(z, false);
        lemma_run_len(z.skip(f), true);
        if f == 0 {
            assert(z.skip(0) =~= z);
        }
        let rz = z.skip(k);
        lemma_toggle_pairs_maximal(rz);
        let ps = toggle_pairs(z);
        let rest = toggle_pairs(rz);
        assert(ps.len() == rest.len() + 1);
        if k < z.len() {
            // The false run stopped at a `true` item, and the true run after it at a `false` one.
            assert(t > 0) by {
                if t == 0 {
                    assert(z.skip(f)[0] == z[f]);
                }
            }
            assert(z.skip(f)[t] == z[k]);
            lemma_run_len(rz, false);
            assert(rz[0] == z[k]);
            if rest.len() > 0 {
                // unfold the first pair of the rest
                let f2 = run_len(rz, false) as int;
                assert(f2 >= 1) by {
                    assert(rz[0].1 == false);
                    assert(run_len(rz, false) == 1 + run_len(rz.drop_first(), false));
                }
                lemma_run_len(rz, false);
                lemma_run_len(rz.skip(f2), true);
                assert(rest[0].0 == items(rz.take(f2)));
            }
        }
        assert forall|i: int| 0 < i < ps.len() implies #[trigger] ps[i].0.len() > 0 by {
            assert(ps[i] == rest[i - 1]);
        }
        assert forall|i: int| 0 <= i < ps.len() - 1 implies #[trigger] ps[i].1.len() > 0 by {
            if i > 0 {
                assert(ps[i] == rest[i - 1]);
            }
        }
    }
}

/// Law: the groups of `partition_toggle`, laid end to end, give back the runs
/// of the pairs laid end to end.
pub proof fn lemma_toggle_groups_concat<T>(ps: Seq<(Seq<T>, Seq<T>)>)
    ensures
        toggle_groups(ps).flatten() == joined_pairs(ps),
    decreases ps.len(),
{
    if ps.len() > 0 {
        let g = |p: (Seq<T>, Seq<T>)| p.0 + p.1;
        let r = ps.drop_first();
        lemma_toggle_groups_concat(r);
        assert(ps =~= seq![ps[0]] + r);
        assert(ps.map_values(g) =~= seq![g(ps[0])] + r.map_values(g));
        lemma_flatten_cons(g(ps[0]), r.map_values(g));
        if ps.len() == 1 && ps[0].1.len() == 0 {
            lemma_flatten_cons(ps[0].0, Seq::<Seq<T>>::empty());
            assert(r.map_values(g) =~= Seq::<Seq<T>>::empty());
            assert(ps[0].0 + ps[0].1 =~= ps[0].0);
            assert(seq![ps[0].0] =~= seq![ps[0].0] + Seq::<Seq<T>>::empty());
        } else {
            assert(seq![ps[0].0, ps[0].1] + toggle_groups(r) =~= seq![ps[0].0] + (seq![ps[0].1]
                + toggle_groups(r)));
            lemma_flatten_cons(ps[0].0, seq![ps[0].1] + toggle_groups(r));
            lemma_flatten_cons(ps[0].1, toggle_groups(r));
            assert(ps[0].0 + (ps[0].1 + toggle_groups(r).flatten()) =~= g(ps[0])
                + toggle_groups(r).flatten());
        }
    }
}

/// Law: `split_partition` keeps every other group of `partition_toggle`,
/// starting at the first.
pub proof fn lemma_false_runs_are_even_groups<T>(ps: Seq<(Seq<T>, Seq<T>)>)
    ensures
        false_runs(ps).len() == (toggle_groups(ps).len() + 1) / 2,
        forall|i: int|
            0 <= i < false_runs(ps).len() ==> #[trigger] false_runs(ps)[i] == toggle_groups(
                ps,
            )[2 * i],
    decreases ps.len(),
{
    if ps.len() > 0 {
        let r = ps.drop_first();
        lemma_false_runs_are_even_groups(r);
        let g = toggle_groups(ps);
        let gr = toggle_groups(r);
        assert forall|i: int| 0 <= i < false_runs(ps).len() implies #[trigger] false_runs(ps)[i]
            == g[2 * i] by {
            if i > 0 {
                assert(false_runs(ps)[i] == false_runs(r)[i - 1]);
                if !(ps.len() == 1 && ps[0].1.len() == 0) {
                    assert(g[2 * i] == gr[2 * (i - 1)]);
                }
            }
        }
    }
}

} // verus!
