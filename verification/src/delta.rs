use vstd::prelude::*;

verus! {

/// One run of a sequence delta: values added at the current position, a run
/// of retained values, or a run of removed values.  Positions advance
/// through the *new* contents for `Added`/`Retained` and through the *old*
/// contents for `Retained`/`Removed`.
#[derive(Debug, PartialEq)]
pub enum SeqChange<T> {
    Added(Vec<T>),
    Retained(usize),
    Removed(usize),
}

/// The mathematical value of a [`SeqChange`].
pub enum SeqChangeVal<V> {
    Added(Seq<V>),
    Retained(nat),
    Removed(nat),
}

pub open spec fn change_val<T: View>(c: SeqChange<T>) -> SeqChangeVal<T::V> {
    match c {
        SeqChange::Added(vs) => SeqChangeVal::Added(vs@.map_values(|t: T| t@)),
        SeqChange::Retained(k) => SeqChangeVal::Retained(k as nat),
        SeqChange::Removed(k) => SeqChangeVal::Removed(k as nat),
    }
}

pub open spec fn delta_val<T: View>(d: Seq<SeqChange<T>>) -> Seq<SeqChangeVal<T::V>> {
    d.map_values(|c: SeqChange<T>| change_val(c))
}

/// How many values of the old contents one run consumes.
pub open spec fn change_old_len<V>(c: SeqChangeVal<V>) -> nat {
    match c {
        SeqChangeVal::Added(_) => 0,
        SeqChangeVal::Retained(k) => k,
        SeqChangeVal::Removed(k) => k,
    }
}

/// How many values of the new contents one run produces.
pub open spec fn change_new_len<V>(c: SeqChangeVal<V>) -> nat {
    match c {
        SeqChangeVal::Added(vs) => vs.len(),
        SeqChangeVal::Retained(k) => k,
        SeqChangeVal::Removed(_) => 0,
    }
}

/// The length of the old contents a delta describes.
pub open spec fn delta_old_len<V>(d: Seq<SeqChangeVal<V>>) -> nat
    decreases d,
{
    if d.len() == 0 {
        0
    } else {
        change_old_len(d.first()) + delta_old_len(d.drop_first())
    }
}

/// The length of the new contents a delta produces.
pub open spec fn delta_new_len<V>(d: Seq<SeqChangeVal<V>>) -> nat
    decreases d,
{
    if d.len() == 0 {
        0
    } else {
        change_new_len(d.first()) + delta_new_len(d.drop_first())
    }
}

/// Decodes a delta against the old contents `s`, producing the new
/// contents.  Meaningful when `delta_old_len(d) == s.len()`.
pub open spec fn delta_apply<V>(d: Seq<SeqChangeVal<V>>, s: Seq<V>) -> Seq<V>
    decreases d,
{
    if d.len() == 0 {
        Seq::empty()
    } else {
        match d.first() {
            SeqChangeVal::Added(vs) => vs + delta_apply(d.drop_first(), s),
            SeqChangeVal::Retained(k) => s.take(k as int) + delta_apply(
                d.drop_first(),
                s.skip(k as int),
            ),
            SeqChangeVal::Removed(k) => delta_apply(d.drop_first(), s.skip(k as int)),
        }
    }
}

pub proof fn lemma_delta_apply_len<V>(d: Seq<SeqChangeVal<V>>, s: Seq<V>)
    requires
        delta_old_len(d) == s.len(),
    ensures
        delta_apply(d, s).len() == delta_new_len(d),
    decreases d,
{
    if d.len() > 0 {
        match d.first() {
            SeqChangeVal::Added(vs) => {
                lemma_delta_apply_len(d.drop_first(), s);
            },
            SeqChangeVal::Retained(k) => {
                lemma_delta_apply_len(d.drop_first(), s.skip(k as int));
            },
            SeqChangeVal::Removed(k) => {
                lemma_delta_apply_len(d.drop_first(), s.skip(k as int));
            },
        }
    }
}

/// The delta of a transaction that has changed nothing yet: one run
/// retaining the whole contents (empty for empty contents).
pub fn delta_identity<T: View>(len: usize) -> (r: Vec<SeqChange<T>>)
    ensures
        delta_old_len(delta_val(r@)) == len as nat,
        delta_new_len(delta_val(r@)) == len as nat,
        forall|s: Seq<T::V>| s.len() == len as nat ==> delta_apply(delta_val(r@), s) == s,
{
    let mut r: Vec<SeqChange<T>> = Vec::new();
    if len > 0 {
        r.push(SeqChange::Retained(len));
        proof {
            assert(delta_val(r@).len() == 1);
            assert(delta_val(r@)[0] == change_val(SeqChange::<T>::Retained(len)));
            assert(delta_val(r@).first() == SeqChangeVal::<T::V>::Retained(len as nat));
            assert(delta_val(r@).drop_first() =~= Seq::<SeqChangeVal<T::V>>::empty());
            assert(delta_old_len(delta_val(r@).drop_first()) == 0);
            assert(delta_old_len(delta_val(r@)) == len as nat);
            assert(delta_new_len(delta_val(r@).drop_first()) == 0);
            assert(delta_new_len(delta_val(r@)) == len as nat);
            assert forall|s: Seq<T::V>| s.len() == len as nat implies delta_apply(
                delta_val(r@),
                s,
            ) == s by {
                assert(delta_apply(delta_val(r@).drop_first(), s.skip(len as int))
                    == Seq::<T::V>::empty());
                assert(delta_apply(delta_val(r@), s) == s.take(len as int) + delta_apply(
                    delta_val(r@).drop_first(),
                    s.skip(len as int),
                ));
                assert(delta_apply(delta_val(r@), s) =~= s);
            }
        }
    } else {
        proof {
            assert(delta_val(r@) =~= Seq::<SeqChangeVal<T::V>>::empty());
            assert(delta_old_len(delta_val(r@)) == 0);
            assert(delta_new_len(delta_val(r@)) == 0);
            assert forall|s: Seq<T::V>| s.len() == len as nat implies delta_apply(
                delta_val(r@),
                s,
            ) == s by {
                assert(delta_apply(delta_val(r@), s) =~= s);
            }
        }
    }
    r
}

pub proof fn lemma_delta_len_unfold<V>(d: Seq<SeqChangeVal<V>>)
    requires
        d.len() > 0,
    ensures
        delta_old_len(d) == change_old_len(d.first()) + delta_old_len(d.drop_first()),
        delta_new_len(d) == change_new_len(d.first()) + delta_new_len(d.drop_first()),
{
}

pub proof fn lemma_delta_val_drop_first<T: View>(s: Seq<SeqChange<T>>)
    requires
        s.len() > 0,
    ensures
        delta_val(s).len() == s.len(),
        delta_val(s.drop_first()) =~= delta_val(s).drop_first(),
        delta_val(s).first() == change_val(s.first()),
{
}

/// Rewrites a transaction delta so that it additionally describes an
/// insertion of `items` at position `pos` of the *new* contents.
pub fn delta_insert_at<T: View>(
    d: Vec<SeqChange<T>>,
    pos: usize,
    items: Vec<T>,
    Ghost(s0): Ghost<Seq<T::V>>,
) -> (r: Vec<SeqChange<T>>)
    requires
        delta_old_len(delta_val(d@)) == s0.len(),
        pos as nat <= delta_new_len(delta_val(d@)),
    ensures
        delta_old_len(delta_val(r@)) == s0.len(),
        delta_new_len(delta_val(r@)) == delta_new_len(delta_val(d@)) + items@.len(),
        delta_apply(delta_val(r@), s0) == delta_apply(delta_val(d@), s0).take(pos as int)
            + items@.map_values(|t: T| t@) + delta_apply(delta_val(d@), s0).skip(pos as int),
    decreases d@.len(),
{
    let ghost dv = delta_val(d@);
    let ghost app0 = delta_apply(dv, s0);
    let ghost itemsv = items@.map_values(|t: T| t@);
    proof {
        lemma_delta_apply_len(dv, s0);
    }
    let mut d = d;
    if d.len() == 0 {
        let mut r: Vec<SeqChange<T>> = Vec::new();
        r.push(SeqChange::Added(items));
        proof {
            lemma_delta_val_drop_first(r@);
            assert(pos == 0);
            assert(app0 == Seq::<T::V>::empty());
            assert(delta_val(r@).first() == SeqChangeVal::<T::V>::Added(itemsv));
            assert(delta_val(r@).drop_first() =~= Seq::<SeqChangeVal<T::V>>::empty());
            assert(delta_apply(delta_val(r@), s0) == itemsv + delta_apply(
                delta_val(r@).drop_first(),
                s0,
            ));
            assert(delta_apply(delta_val(r@), s0) =~= app0.take(pos as int) + itemsv + app0.skip(
                pos as int,
            ));
            lemma_delta_len_unfold(delta_val(r@));
        }
        return r;
    }
    proof {
        lemma_delta_val_drop_first(d@);
    }
    let ghost dtail = d@.drop_first();
    let first = d.remove(0);
    proof {
        assert(d@ =~= dtail);
        assert(dv.drop_first() == delta_val(d@));
    }
    match first {
        SeqChange::Added(vs) => {
            let ghost vsv = vs@.map_values(|t: T| t@);
            let ghost restapp = delta_apply(delta_val(d@), s0);
            if pos <= vs.len() {
                let mut vs = vs;
                let mut items = items;
                let mut tail = vs.split_off(pos);
                vs.append(&mut items);
                vs.append(&mut tail);
                d.insert(0, SeqChange::Added(vs));
                proof {
                    lemma_delta_val_drop_first(d@);
                    assert(d@.drop_first() =~= dtail);
                    assert(vs@.map_values(|t: T| t@) =~= vsv.take(pos as int) + itemsv
                        + vsv.skip(pos as int));
                    assert(app0 == vsv + restapp);
                    assert(app0.take(pos as int) =~= vsv.take(pos as int));
                    assert(app0.skip(pos as int) =~= vsv.skip(pos as int) + restapp);
                    assert(delta_apply(delta_val(d@), s0) =~= app0.take(pos as int) + itemsv
                        + app0.skip(pos as int));
                    lemma_delta_len_unfold(delta_val(d@));
                    lemma_delta_len_unfold(dv);
                }
                return d;
            } else {
                let vlen = vs.len();
                let mut rest = delta_insert_at(d, pos - vlen, items, Ghost(s0));
                let ghost rv_before = delta_val(rest@);
                rest.insert(0, SeqChange::Added(vs));
                proof {
                    lemma_delta_val_drop_first(rest@);
                    assert(delta_val(rest@).drop_first() =~= rv_before);
                    assert(app0 == vsv + restapp);
                    assert(app0.take(pos as int) =~= vsv + restapp.take(pos - vlen));
                    assert(app0.skip(pos as int) =~= restapp.skip(pos - vlen));
                    assert(delta_apply(delta_val(rest@), s0) =~= app0.take(pos as int) + itemsv
                        + app0.skip(pos as int));
                    lemma_delta_len_unfold(delta_val(rest@));
                    lemma_delta_len_unfold(dv);
                }
                return rest;
            }
        },
        SeqChange::Retained(k) => {
            let ghost restapp = delta_apply(delta_val(d@), s0.skip(k as int));
            if pos < k {
                d.insert(0, SeqChange::Retained(k - pos));
                d.insert(0, SeqChange::Added(items));
                d.insert(0, SeqChange::Retained(pos));
                proof {
                    let rv = delta_val(d@);
                    assert(rv.first() == SeqChangeVal::<T::V>::Retained(pos as nat));
                    assert(rv.drop_first().first() == SeqChangeVal::<T::V>::Added(itemsv));
                    assert(rv.drop_first().drop_first().first()
                        == SeqChangeVal::<T::V>::Retained((k - pos) as nat));
                    assert(rv.drop_first().drop_first().drop_first() =~= dv.drop_first());
                    assert(s0.skip(pos as int).skip((k - pos) as int) =~= s0.skip(k as int));
                    assert(s0.skip(pos as int).take((k - pos) as int) =~= s0.subrange(
                        pos as int,
                        k as int,
                    ));
                    assert(app0 == s0.take(k as int) + restapp);
                    assert(app0.take(pos as int) =~= s0.take(pos as int));
                    assert(app0.skip(pos as int) =~= s0.subrange(pos as int, k as int) + restapp);
                    assert(delta_apply(rv, s0) == s0.take(pos as int) + delta_apply(
                        rv.drop_first(),
                        s0.skip(pos as int),
                    ));
                    assert(delta_apply(rv.drop_first(), s0.skip(pos as int)) == itemsv
                        + delta_apply(rv.drop_first().drop_first(), s0.skip(pos as int)));
                    assert(delta_apply(rv.drop_first().drop_first(), s0.skip(pos as int))
                        == s0.skip(pos as int).take((k - pos) as int) + delta_apply(
                        rv.drop_first().drop_first().drop_first(),
                        s0.skip(pos as int).skip((k - pos) as int),
                    ));
                    assert(delta_apply(
                        rv.drop_first().drop_first().drop_first(),
                        s0.skip(pos as int).skip((k - pos) as int),
                    ) == restapp);
                    assert(delta_apply(rv, s0) =~= app0.take(pos as int) + itemsv + app0.skip(
                        pos as int,
                    ));
                    lemma_delta_len_unfold(rv);
                    lemma_delta_len_unfold(rv.drop_first());
                    lemma_delta_len_unfold(rv.drop_first().drop_first());
                    lemma_delta_len_unfold(dv);
                }
                return d;
            } else {
                let mut rest = delta_insert_at(d, pos - k, items, Ghost(s0.skip(k as int)));
                let ghost rv_before = delta_val(rest@);
                rest.insert(0, SeqChange::Retained(k));
                proof {
                    lemma_delta_val_drop_first(rest@);
                    assert(delta_val(rest@).drop_first() =~= rv_before);
                    assert(app0 == s0.take(k as int) + restapp);
                    assert(app0.take(pos as int) =~= s0.take(k as int) + restapp.take(
                        pos - k,
                    ));
                    assert(app0.skip(pos as int) =~= restapp.skip(pos - k));
                    assert(delta_apply(delta_val(rest@), s0) =~= app0.take(pos as int) + itemsv
                        + app0.skip(pos as int));
                    lemma_delta_len_unfold(delta_val(rest@));
                    lemma_delta_len_unfold(dv);
                }
                return rest;
            }
        },
        SeqChange::Removed(k) => {
            let mut rest = delta_insert_at(d, pos, items, Ghost(s0.skip(k as int)));
            let ghost rv_before = delta_val(rest@);
            rest.insert(0, SeqChange::Removed(k));
            proof {
                lemma_delta_val_drop_first(rest@);
                assert(delta_val(rest@).drop_first() =~= rv_before);
                assert(delta_apply(delta_val(rest@), s0) =~= app0.take(pos as int) + itemsv
                    + app0.skip(pos as int));
                lemma_delta_len_unfold(delta_val(rest@));
                lemma_delta_len_unfold(dv);
            }
            return rest;
        },
    }
}

/// Rewrites a transaction delta so that it additionally describes the
/// removal of `cnt` values starting at position `pos` of the *new*
/// contents.
#[verifier::rlimit(60)]
pub fn delta_remove_at<T: View>(
    d: Vec<SeqChange<T>>,
    pos: usize,
    cnt: usize,
    Ghost(s0): Ghost<Seq<T::V>>,
) -> (r: Vec<SeqChange<T>>)
    requires
        delta_old_len(delta_val(d@)) == s0.len(),
        pos as nat + cnt as nat <= delta_new_len(delta_val(d@)),
    ensures
        delta_old_len(delta_val(r@)) == s0.len(),
        delta_new_len(delta_val(r@)) == delta_new_len(delta_val(d@)) - cnt as nat,
        delta_apply(delta_val(r@), s0) == delta_apply(delta_val(d@), s0).take(pos as int)
            + delta_apply(delta_val(d@), s0).skip(pos as int + cnt as int),
    decreases d@.len(),
{
    let ghost dv = delta_val(d@);
    let ghost app0 = delta_apply(dv, s0);
    proof {
        lemma_delta_apply_len(dv, s0);
    }
    let mut d = d;
    if cnt == 0 {
        proof {
            assert(app0.take(pos as int) + app0.skip(pos as int) =~= app0);
        }
        return d;
    }
    if d.len() == 0 {
        proof {
            assert(false);
        }
        return d;
    }
    proof {
        lemma_delta_val_drop_first(d@);
        lemma_delta_len_unfold(dv);
    }
    let ghost dtail = d@.drop_first();
    let first = d.remove(0);
    proof {
        assert(d@ =~= dtail);
        assert(dv.drop_first() == delta_val(d@));
    }
    match first {
        SeqChange::Added(vs) => {
            let ghost vsv = vs@.map_values(|t: T| t@);
            let ghost restapp = delta_apply(delta_val(d@), s0);
            if pos >= vs.len() {
                let vlen = vs.len();
                let mut rest = delta_remove_at(d, pos - vlen, cnt, Ghost(s0));
                let ghost rv_before = delta_val(rest@);
                rest.insert(0, SeqChange::Added(vs));
                proof {
                    lemma_delta_val_drop_first(rest@);
                    assert(delta_val(rest@).drop_first() =~= rv_before);
                    assert(app0 == vsv + restapp);
                    assert(app0.take(pos as int) =~= vsv + restapp.take(pos - vlen));
                    assert(app0.skip(pos as int + cnt as int) =~= restapp.skip(
                        pos - vlen + cnt as int,
                    ));
                    assert(delta_apply(delta_val(rest@), s0) =~= app0.take(pos as int)
                        + app0.skip(pos as int + cnt as int));
                    lemma_delta_len_unfold(delta_val(rest@));
                }
                return rest;
            } else {
                let within = if cnt < vs.len() - pos {
                    cnt
                } else {
                    vs.len() - pos
                };
                let mut vs = vs;
                let mut tail = vs.split_off(pos);
                let mut tail2 = tail.split_off(within);
                vs.append(&mut tail2);
                proof {
                    assert(vs@.map_values(|t: T| t@) =~= vsv.take(pos as int) + vsv.skip(
                        pos as int + within as int,
                    ));
                }
                if cnt == within {
                    d.insert(0, SeqChange::Added(vs));
                    proof {
                        lemma_delta_val_drop_first(d@);
                        assert(d@.drop_first() =~= dtail);
                        assert(app0 == vsv + restapp);
                        assert(app0.take(pos as int) =~= vsv.take(pos as int));
                        assert(app0.skip(pos as int + cnt as int) =~= vsv.skip(
                            pos as int + cnt as int,
                        ) + restapp);
                        assert(delta_apply(delta_val(d@), s0) =~= app0.take(pos as int)
                            + app0.skip(pos as int + cnt as int));
                        lemma_delta_len_unfold(delta_val(d@));
                    }
                    return d;
                } else {
                    let ghost cnt2 = cnt - within;
                    let mut rest = delta_remove_at(d, 0, cnt - within, Ghost(s0));
                    let ghost rv_before = delta_val(rest@);
                    rest.insert(0, SeqChange::Added(vs));
                    proof {
                        lemma_delta_val_drop_first(rest@);
                        assert(delta_val(rest@).drop_first() =~= rv_before);
                        assert(delta_apply(rv_before, s0) == restapp.take(0) + restapp.skip(cnt2));
                        assert(app0 == vsv + restapp);
                        assert(app0.take(pos as int) =~= vsv.take(pos as int));
                        assert(pos + within == vsv.len());
                        assert(app0.skip(pos as int + cnt as int) =~= restapp.skip(cnt2));
                        assert(delta_apply(delta_val(rest@), s0) =~= app0.take(pos as int)
                            + app0.skip(pos as int + cnt as int));
                        lemma_delta_len_unfold(delta_val(rest@));
                    }
                    return rest;
                }
            }
        },
        SeqChange::Retained(k) => {
            let ghost restapp = delta_apply(delta_val(d@), s0.skip(k as int));
            if pos >= k {
                let mut rest = delta_remove_at(d, pos - k, cnt, Ghost(s0.skip(k as int)));
                let ghost rv_before = delta_val(rest@);
                rest.insert(0, SeqChange::Retained(k));
                proof {
                    lemma_delta_val_drop_first(rest@);
                    assert(delta_val(rest@).drop_first() =~= rv_before);
                    assert(app0 == s0.take(k as int) + restapp);
                    assert(app0.take(pos as int) =~= s0.take(k as int) + restapp.take(pos - k));
                    assert(app0.skip(pos as int + cnt as int) =~= restapp.skip(
                        pos - k + cnt as int,
                    ));
                    assert(delta_apply(delta_val(rest@), s0) =~= app0.take(pos as int)
                        + app0.skip(pos as int + cnt as int));
                    lemma_delta_len_unfold(delta_val(rest@));
                }
                return rest;
            } else {
                let within = if cnt < k - pos {
                    cnt
                } else {
                    k - pos
                };
                if cnt == within {
                    d.insert(0, SeqChange::Retained(k - pos - within));
                    d.insert(0, SeqChange::Removed(within));
                    d.insert(0, SeqChange::Retained(pos));
                    proof {
                        let rv = delta_val(d@);
                        assert(rv.first() == SeqChangeVal::<T::V>::Retained(pos as nat));
                        assert(rv.drop_first().first() == SeqChangeVal::<T::V>::Removed(
                            within as nat,
                        ));
                        assert(rv.drop_first().drop_first().first()
                            == SeqChangeVal::<T::V>::Retained((k - pos - within) as nat));
                        assert(rv.drop_first().drop_first().drop_first() =~= dv.drop_first());
                        assert(delta_apply(rv, s0) == s0.take(pos as int) + delta_apply(
                            rv.drop_first(),
                            s0.skip(pos as int),
                        ));
                        assert(delta_apply(rv.drop_first(), s0.skip(pos as int)) == delta_apply(
                            rv.drop_first().drop_first(),
                            s0.skip(pos as int).skip(within as int),
                        ));
                        assert(delta_apply(
                            rv.drop_first().drop_first(),
                            s0.skip(pos as int).skip(within as int),
                        ) == s0.skip(pos as int).skip(within as int).take((k - pos - within) as int)
                            + delta_apply(
                            rv.drop_first().drop_first().drop_first(),
                            s0.skip(pos as int).skip(within as int).skip((k - pos - within) as int),
                        ));
                        assert(s0.skip(pos as int).skip(within as int).skip(
                            (k - pos - within) as int,
                        ) =~= s0.skip(k as int));
                        assert(delta_apply(
                            rv.drop_first().drop_first().drop_first(),
                            s0.skip(pos as int).skip(within as int).skip((k - pos - within) as int),
                        ) == restapp);
                        assert(app0 == s0.take(k as int) + restapp);
                        assert(delta_apply(rv, s0) =~= app0.take(pos as int) + app0.skip(
                            pos as int + cnt as int,
                        ));
                        lemma_delta_len_unfold(rv);
                        lemma_delta_len_unfold(rv.drop_first());
                        lemma_delta_len_unfold(rv.drop_first().drop_first());
                    }
                    return d;
                } else {
                    let ghost cnt2 = cnt - within;
                    let mut rest = delta_remove_at(d, 0, cnt - within, Ghost(s0.skip(k as int)));
                    let ghost rv_before = delta_val(rest@);
                    rest.insert(0, SeqChange::Removed(within));
                    rest.insert(0, SeqChange::Retained(pos));
                    proof {
                        let rv = delta_val(rest@);
                        assert(rv.first() == SeqChangeVal::<T::V>::Retained(pos as nat));
                        assert(rv.drop_first().first() == SeqChangeVal::<T::V>::Removed(
                            within as nat,
                        ));
                        assert(rv.drop_first().drop_first() =~= rv_before);
                        assert(delta_apply(rv_before, s0.skip(k as int)) == restapp.take(0)
                            + restapp.skip(cnt2));
                        assert(delta_apply(rv, s0) == s0.take(pos as int) + delta_apply(
                            rv.drop_first(),
                            s0.skip(pos as int),
                        ));
                        assert(delta_apply(rv.drop_first(), s0.skip(pos as int)) == delta_apply(
                            rv.drop_first().drop_first(),
                            s0.skip(pos as int).skip(within as int),
                        ));
                        assert(s0.skip(pos as int).skip(within as int) =~= s0.skip(k as int));
                        assert(app0 == s0.take(k as int) + restapp);
                        assert(pos + within == k);
                        assert(delta_apply(rv, s0) =~= app0.take(pos as int) + app0.skip(
                            pos as int + cnt as int,
                        ));
                        lemma_delta_len_unfold(rv);
                        lemma_delta_len_unfold(rv.drop_first());
                    }
                    return rest;
                }
            }
        },
        SeqChange::Removed(k) => {
            let mut rest = delta_remove_at(d, pos, cnt, Ghost(s0.skip(k as int)));
            let ghost rv_before = delta_val(rest@);
            rest.insert(0, SeqChange::Removed(k));
            proof {
                lemma_delta_val_drop_first(rest@);
                assert(delta_val(rest@).drop_first() =~= rv_before);
                assert(delta_apply(delta_val(rest@), s0) =~= app0.take(pos as int) + app0.skip(
                    pos as int + cnt as int,
                ));
                lemma_delta_len_unfold(delta_val(rest@));
            }
            return rest;
        },
    }
}

} // verus!
