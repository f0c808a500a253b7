//! The in-memory key/value and hash-map store the command layer executes
//! against. Lookups and writes are specified by first-match association
//! over the store's entries.
use vstd::prelude::*;

verus! {

use crate::frame::entries_insert;
use crate::frame::entries_view;
use crate::frame::frame_view;
use crate::frame::lemma_entries_view;
use crate::frame::RespFrame;
use crate::model::fold_from;
use crate::model::FrameVal;
use crate::scan::str_eq;
use vstd::pervasive::VecAdditionalExecFns;

broadcast use vstd::std_specs::vec::group_vec_axioms;

/// First-match lookup in an association list.
pub open spec fn assoc<K>(es: Seq<(K, FrameVal)>, k: K) -> Option<FrameVal>
    decreases es.len(),
{
    if es.len() == 0 {
        None
    } else if es[0].0 == k {
        Some(es[0].1)
    } else {
        assoc(es.drop_first(), k)
    }
}

/// Updating the first entry whose key is `k` changes the association of
/// `k` alone.
pub proof fn lemma_assoc_update<K>(es: Seq<(K, FrameVal)>, i: int, k: K, v: FrameVal)
    requires
        0 <= i < es.len(),
        es[i].0 == k,
        forall|j: int| 0 <= j < i ==> (#[trigger] es[j]).0 != k,
    ensures
        forall|q: K| #[trigger]
            assoc(es.update(i, (k, v)), q) == if q == k {
                Some(v)
            } else {
                assoc(es, q)
            },
    decreases i,
{
    let nes = es.update(i, (k, v));
    if i == 0 {
        assert(nes[0] == (k, v));
        assert(nes.drop_first() =~= es.drop_first());
        assert forall|q: K| #[trigger]
            assoc(nes, q) == (if q == k {
                Some(v)
            } else {
                assoc(es, q)
            }) by {
            if q != k {
                assert(assoc(nes, q) == assoc(nes.drop_first(), q));
                assert(assoc(es, q) == assoc(es.drop_first(), q));
            }
        }
    } else {
        assert(nes[0] == es[0]);
        assert(nes.drop_first() =~= es.drop_first().update(i - 1, (k, v)));
        assert(es.drop_first()[i - 1].0 == k);
        assert(forall|j: int|
            0 <= j < i - 1 ==> (#[trigger] es.drop_first()[j]).0 != k);
        lemma_assoc_update(es.drop_first(), i - 1, k, v);
        assert forall|q: K| #[trigger]
            assoc(nes, q) == (if q == k {
                Some(v)
            } else {
                assoc(es, q)
            }) by {
            assert(es[0].0 != k);
            if q == es[0].0 {
            } else {
                assert(assoc(nes, q) == assoc(nes.drop_first(), q));
                assert(assoc(es, q) == assoc(es.drop_first(), q));
            }
        }
    }
}

/// Appending an entry whose key is absent changes the association of that
/// key alone.
pub proof fn lemma_assoc_push<K>(es: Seq<(K, FrameVal)>, k: K, v: FrameVal)
    requires
        forall|j: int| 0 <= j < es.len() ==> (#[trigger] es[j]).0 != k,
    ensures
        forall|q: K| #[trigger]
            assoc(es.push((k, v)), q) == if q == k {
                Some(v)
            } else {
                assoc(es, q)
            },
    decreases es.len(),
{
    let nes = es.push((k, v));
    if es.len() == 0 {
        assert(nes[0] == (k, v));
        assert(nes.drop_first() =~= Seq::<(K, FrameVal)>::empty());
        assert forall|q: K| #[trigger]
            assoc(nes, q) == (if q == k {
                Some(v)
            } else {
                assoc(es, q)
            }) by {
            if q != k {
                assert(assoc(nes, q) == assoc(nes.drop_first(), q));
            }
        }
    } else {
        assert(nes[0] == es[0]);
        assert(nes.drop_first() =~= es.drop_first().push((k, v)));
        lemma_assoc_push(es.drop_first(), k, v);
        assert forall|q: K| #[trigger]
            assoc(nes, q) == (if q == k {
                Some(v)
            } else {
                assoc(es, q)
            }) by {
            assert(es[0].0 != k);
            if q == es[0].0 {
            } else {
                assert(assoc(nes, q) == assoc(nes.drop_first(), q));
                assert(assoc(es, q) == assoc(es.drop_first(), q));
            }
        }
    }
}

/// View of the hash-map entries: each field of each hash key, in insertion
/// order, keyed by the (key, field) pair.
pub open spec fn h_view(s: Seq<((String, String), RespFrame)>) -> Seq<
    ((Seq<char>, Seq<char>), FrameVal),
>
    decreases s,
{
    if s.len() == 0 {
        Seq::empty()
    } else {
        h_view(s.drop_last()).push(
            ((s.last().0.0@, s.last().0.1@), frame_view(s.last().1)),
        )
    }
}

/// Pointwise reading of `h_view`.
pub proof fn lemma_h_view(s: Seq<((String, String), RespFrame)>)
    ensures
        h_view(s).len() == s.len(),
        forall|i: int|
            0 <= i < s.len() ==> h_view(s)[i] == (
                ((#[trigger] s[i]).0.0@, s[i].0.1@),
                frame_view(s[i].1),
            ),
    decreases s.len(),
{
    if s.len() > 0 {
        lemma_h_view(s.drop_last());
        assert forall|i: int|
            0 <= i < s.len() implies h_view(s)[i] == (
            ((#[trigger] s[i]).0.0@, s[i].0.1@),
            frame_view(s[i].1),
        ) by {
            if i < s.len() - 1 {
                assert(s.drop_last()[i] == s[i]);
                assert(h_view(s)[i] == h_view(s.drop_last())[i]);
            } else {
                assert(s.last() == s[i]);
            }
        }
    }
}

/// `h_view` maps an in-place update pointwise.
pub proof fn lemma_h_view_update(
    s: Seq<((String, String), RespFrame)>,
    i: int,
    p: ((String, String), RespFrame),
)
    requires
        0 <= i < s.len(),
    ensures
        h_view(s.update(i, p)) == h_view(s).update(i, ((p.0.0@, p.0.1@), frame_view(p.1))),
{
    lemma_h_view(s);
    lemma_h_view(s.update(i, p));
    let a = h_view(s.update(i, p));
    let b = h_view(s).update(i, ((p.0.0@, p.0.1@), frame_view(p.1)));
    assert forall|j: int| 0 <= j < a.len() implies a[j] == b[j] by {
        if j != i {
            assert(s.update(i, p)[j] == s[j]);
        } else {
            assert(s.update(i, p)[j] == p);
        }
    }
    assert(a =~= b);
}

/// `h_view` maps an append pointwise.
pub proof fn lemma_h_view_push(s: Seq<((String, String), RespFrame)>, p: (
    (String, String),
    RespFrame,
))
    ensures
        h_view(s.push(p)) == h_view(s).push(((p.0.0@, p.0.1@), frame_view(p.1))),
{
    lemma_h_view(s);
    lemma_h_view(s.push(p));
    let a = h_view(s.push(p));
    let b = h_view(s).push(((p.0.0@, p.0.1@), frame_view(p.1)));
    assert forall|j: int| 0 <= j < a.len() implies a[j] == b[j] by {
        if j < s.len() {
            assert(s.push(p)[j] == s[j]);
        } else {
            assert(s.push(p)[j] == p);
        }
    }
    assert(a =~= b);
}

/// The fields stored under hash key `k`, in insertion order.
pub open spec fn h_fields(
    es: Seq<((Seq<char>, Seq<char>), FrameVal)>,
    k: Seq<char>,
) -> Seq<(Seq<char>, FrameVal)>
    decreases es.len(),
{
    if es.len() == 0 {
        Seq::empty()
    } else {
        let rest = h_fields(es.drop_first(), k);
        if es[0].0.0 == k {
            seq![(es[0].0.1, es[0].1)] + rest
        } else {
            rest
        }
    }
}

/// The hash fields of `k`, folded into a key-ordered entry list: the view
/// of a complete read of one hash key.
pub open spec fn fold_from_empty_fields(
    es: Seq<((Seq<char>, Seq<char>), FrameVal)>,
    k: Seq<char>,
) -> Seq<(Seq<char>, FrameVal)> {
    fold_from(Seq::empty(), h_fields(es, k))
}

/// The in-memory store: a flat key/value list and a flat (key, field)
/// hash-entry list, each with first-match semantics and in-place updates.
pub struct Backend {
    kv: Vec<(String, RespFrame)>,
    hkv: Vec<((String, String), RespFrame)>,
}

impl Backend {
    pub closed spec fn kv_entries(self) -> Seq<(Seq<char>, FrameVal)> {
        entries_view(self.kv@)
    }

    pub closed spec fn h_entries(self) -> Seq<((Seq<char>, Seq<char>), FrameVal)> {
        h_view(self.hkv@)
    }

    pub fn new() -> (r: Backend)
        ensures
            r.kv_entries() == Seq::<(Seq<char>, FrameVal)>::empty(),
            r.h_entries() == Seq::<((Seq<char>, Seq<char>), FrameVal)>::empty(),
    {
        let r = Backend { kv: Vec::new(), hkv: Vec::new() };
        proof {
            assert(entries_view(r.kv@) =~= Seq::<(Seq<char>, FrameVal)>::empty());
            assert(h_view(r.hkv@) =~= Seq::<((Seq<char>, Seq<char>), FrameVal)>::empty());
        }
        r
    }

    /// The value stored under `key`, if any.
    #[verifier::loop_isolation(false)]
    pub fn get(&self, key: &String) -> (r: Option<RespFrame>)
        ensures
            match assoc(self.kv_entries(), key@) {
                Some(v) => r matches Some(f) && frame_view(f) == v,
                None => r is None,
            },
    {
        proof {
            lemma_entries_view(self.kv@);
        }
        let ghost ev = entries_view(self.kv@);
        let mut i: usize = 0;
        proof {
            assert(ev.skip(0) =~= ev);
        }
        while i < self.kv.len()
            invariant
                i <= self.kv@.len(),
                assoc(ev, key@) == assoc(ev.skip(i as int), key@),
            decreases self.kv@.len() - i,
        {
            if str_eq(self.kv[i].0.as_str(), key.as_str()) {
                proof {
                    assert(ev.skip(i as int)[0] == ev[i as int]);
                }
                return Some(self.kv[i].1.duplicate());
            }
            proof {
                assert(ev.skip(i as int)[0] == ev[i as int]);
                assert(ev.skip(i as int).drop_first() =~= ev.skip(i + 1));
            }
            i = i + 1;
        }
        None
    }

    /// Store `value` under `key`, replacing any earlier value.
    #[verifier::loop_isolation(false)]
    pub fn set(&mut self, key: String, value: RespFrame)
        ensures
            forall|q: Seq<char>| #[trigger]
                assoc(final(self).kv_entries(), q) == if q == key@ {
                    Some(frame_view(value))
                } else {
                    assoc(old(self).kv_entries(), q)
                },
            final(self).h_entries() == old(self).h_entries(),
    {
        proof {
            lemma_entries_view(self.kv@);
        }
        let ghost ev = entries_view(self.kv@);
        let mut i: usize = 0;
        while i < self.kv.len()
            invariant
                i <= self.kv@.len(),
                self.kv@ == old(self).kv@,
                self.hkv@ == old(self).hkv@,
                forall|j: int| 0 <= j < i ==> (#[trigger] ev[j]).0 != key@,
            decreases self.kv@.len() - i,
        {
            if str_eq(self.kv[i].0.as_str(), key.as_str()) {
                proof {
                    assert(ev[i as int].0 == key@);
                    lemma_assoc_update(ev, i as int, key@, frame_view(value));
                }
                let ghost oldkv = self.kv@;
                let entry = (key, value);
                let ghost pr = entry;
                self.kv.set(i, entry);
                proof {
                    crate::frame::lemma_entries_view_update(oldkv, i as int, pr);
                    assert(self.kv@ == oldkv.update(i as int, pr));
                    assert(entries_view(self.kv@) == ev.update(
                        i as int,
                        (pr.0@, frame_view(pr.1)),
                    ));
                }
                return ;
            }
            i = i + 1;
        }
        proof {
            lemma_assoc_push(ev, key@, frame_view(value));
        }
        let ghost oldkv = self.kv@;
        let entry = (key, value);
        let ghost pr = entry;
        self.kv.push(entry);
        proof {
            crate::frame::lemma_entries_view_push(oldkv, pr);
            assert(self.kv@ == oldkv.push(pr));
            assert(entries_view(self.kv@) == ev.push((pr.0@, frame_view(pr.1))));
        }
    }

    /// The value stored under `field` of hash key `key`, if any.
    #[verifier::loop_isolation(false)]
    pub fn hget(&self, key: &String, field: &String) -> (r: Option<RespFrame>)
        ensures
            match assoc(self.h_entries(), (key@, field@)) {
                Some(v) => r matches Some(f) && frame_view(f) == v,
                None => r is None,
            },
    {
        proof {
            lemma_h_view(self.hkv@);
        }
        let ghost ev = h_view(self.hkv@);
        let mut i: usize = 0;
        proof {
            assert(ev.skip(0) =~= ev);
        }
        while i < self.hkv.len()
            invariant
                i <= self.hkv@.len(),
                assoc(ev, (key@, field@)) == assoc(ev.skip(i as int), (key@, field@)),
            decreases self.hkv@.len() - i,
        {
            if str_eq(self.hkv[i].0.0.as_str(), key.as_str()) && str_eq(
                self.hkv[i].0.1.as_str(),
                field.as_str(),
            ) {
                proof {
                    assert(ev.skip(i as int)[0] == ev[i as int]);
                }
                return Some(self.hkv[i].1.duplicate());
            }
            proof {
                assert(ev.skip(i as int)[0] == ev[i as int]);
                assert(ev.skip(i as int).drop_first() =~= ev.skip(i + 1));
            }
            i = i + 1;
        }
        None
    }

    /// Store `value` under `field` of hash key `key`, replacing any earlier
    /// value of that field.
    #[verifier::loop_isolation(false)]
    pub fn hset(&mut self, key: String, field: String, value: RespFrame)
        ensures
            forall|q: (Seq<char>, Seq<char>)| #[trigger]
                assoc(final(self).h_entries(), q) == if q == (key@, field@) {
                    Some(frame_view(value))
                } else {
                    assoc(old(self).h_entries(), q)
                },
            final(self).kv_entries() == old(self).kv_entries(),
    {
        proof {
            lemma_h_view(self.hkv@);
        }
        let ghost ev = h_view(self.hkv@);
        let mut i: usize = 0;
        while i < self.hkv.len()
            invariant
                i <= self.hkv@.len(),
                self.kv@ == old(self).kv@,
                self.hkv@ == old(self).hkv@,
                forall|j: int| 0 <= j < i ==> (#[trigger] ev[j]).0 != (key@, field@),
            decreases self.hkv@.len() - i,
        {
            if str_eq(self.hkv[i].0.0.as_str(), key.as_str()) && str_eq(
                self.hkv[i].0.1.as_str(),
                field.as_str(),
            ) {
                proof {
                    assert(ev[i as int].0 == (key@, field@));
                    lemma_assoc_update(ev, i as int, (key@, field@), frame_view(value));
                }
                let ghost oldh = self.hkv@;
                let entry = ((key, field), value);
                let ghost pr = entry;
                self.hkv.set(i, entry);
                proof {
                    lemma_h_view_update(oldh, i as int, pr);
                    assert(self.hkv@ == oldh.update(i as int, pr));
                    assert(h_view(self.hkv@) == ev.update(
                        i as int,
                        ((pr.0.0@, pr.0.1@), frame_view(pr.1)),
                    ));
                }
                return ;
            }
            i = i + 1;
        }
        proof {
            lemma_assoc_push(ev, (key@, field@), frame_view(value));
        }
        let ghost oldh = self.hkv@;
        let entry = ((key, field), value);
        let ghost pr = entry;
        self.hkv.push(entry);
        proof {
            lemma_h_view_push(oldh, pr);
            assert(self.hkv@ == oldh.push(pr));
            assert(h_view(self.hkv@) == ev.push(((pr.0.0@, pr.0.1@), frame_view(pr.1))));
        }
    }

    /// All fields stored under hash key `key`, folded into a key-ordered
    /// entry list.
    #[verifier::loop_isolation(false)]
    pub fn hgetall(&self, key: &String) -> (r: Vec<(String, RespFrame)>)
        ensures
            entries_view(r@) == fold_from(
                Seq::<(Seq<char>, FrameVal)>::empty(),
                h_fields(self.h_entries(), key@),
            ),
    {
        proof {
            lemma_h_view(self.hkv@);
        }
        let ghost ev = h_view(self.hkv@);
        let mut out: Vec<(String, RespFrame)> = Vec::new();
        let mut i: usize = 0;
        proof {
            assert(ev.skip(0) =~= ev);
            assert(entries_view(out@) =~= Seq::<(Seq<char>, FrameVal)>::empty());
        }
        while i < self.hkv.len()
            invariant
                i <= self.hkv@.len(),
                fold_from(Seq::<(Seq<char>, FrameVal)>::empty(), h_fields(ev, key@))
                    == fold_from(entries_view(out@), h_fields(ev.skip(i as int), key@)),
            decreases self.hkv@.len() - i,
        {
            proof {
                assert(ev.skip(i as int)[0] == ev[i as int]);
                assert(ev.skip(i as int).drop_first() =~= ev.skip(i + 1));
            }
            if str_eq(self.hkv[i].0.0.as_str(), key.as_str()) {
                let f = self.hkv[i].0.1.clone();
                let v = self.hkv[i].1.duplicate();
                let ghost fs = h_fields(ev.skip(i as int), key@);
                proof {
                    assert(fs[0] == (ev[i as int].0.1, ev[i as int].1));
                    assert(fs.drop_first() =~= h_fields(ev.skip(i + 1), key@));
                }
                entries_insert(&mut out, f, v);
            }
            i = i + 1;
        }
        proof {
            assert(ev.skip(ev.len() as int) =~= Seq::<((Seq<char>, Seq<char>), FrameVal)>::empty());
        }
        out
    }
}

} // verus!
